//! The samples of a WAV file in blocks, all at once or as they are read.
//!
//! A lazy stream makes a block as soon as its samples have been read. It keeps
//! those that later blocks share with it, and passes over those that lie between
//! two blocks. So no more than one frame of samples waits to be cut.
//!
//! The two ways differ at the end of a file. All at once, a block starts at every
//! hop. A lazy stream counts its blocks by chunks of whole hops: a chunk that the
//! file fills starts a block at every hop, and what is left of the file after
//! the last such chunk starts one block only.
use crate::blocks;
use crate::error::AudioError;
use crate::file;
use crate::file::WavFile;
use crate::wav;
use crate::wav::SampleReader;
use vstd::prelude::*;

verus! {

/// Whether the blocks of a file can be cut, if it comes to that: they do not
/// all start at the first sample, and none is too long for a vector.
pub open spec fn can_stream(
    file: WavFile,
    block_length: usize,
    frame_length: usize,
    hop_length: Option<usize>,
) -> bool {
    match file {
        WavFile::Contents(bytes) => match wav::wav_header(bytes@) {
            Some(header) => wav::supported(header.format) && wav::all_readable(
                wav::stored_samples(bytes@, header),
            ) ==> {
                &&& blocks::hop_or_frame(hop_length, frame_length) > 0
                &&& blocks::frame_fits(
                    header.samples as nat,
                    block_length as nat,
                    frame_length as nat,
                )
            },
            None => true,
        },
        _ => true,
    }
}

/// What comes of streaming a file: its blocks, or why there are none.
pub open spec fn streamed(
    file: WavFile,
    block_length: usize,
    frame_length: usize,
    hop_length: Option<usize>,
    r: Result<Vec<Vec<u32>>, AudioError>,
) -> bool {
    match file {
        WavFile::Missing(path) => r matches Err(AudioError::FileNotFound(p)) && p == path,
        WavFile::Unreadable(cause) => r matches Err(AudioError::IoError(e)) && e == cause,
        WavFile::Contents(bytes) => match wav::wav_header(bytes@) {
            None => r matches Err(AudioError::OpenError(e)) && e == wav::open_failure(bytes@),
            Some(header) => if !wav::supported(header.format) {
                r matches Err(AudioError::UnsupportedFormat)
            } else if wav::all_readable(wav::stored_samples(bytes@, header)) {
                r matches Ok(cut) && blocks::contents(cut@) == blocks::hopped_windows(
                    wav::values(wav::stored_samples(bytes@, header)),
                    block_length as nat,
                    frame_length as nat,
                    blocks::hop_or_frame(hop_length, frame_length) as nat,
                )
            } else {
                r matches Err(AudioError::HoundError(_))
            },
        },
    }
}

/// The samples of a WAV file in blocks of `frame_length`, which start
/// `hop_length` samples apart, `frame_length` if that is `None`. There are at
/// most `block_length` blocks; the last ones are padded with zeros.
pub fn stream(
    file: WavFile,
    block_length: usize,
    frame_length: usize,
    hop_length: Option<usize>,
) -> (r: Result<Vec<Vec<u32>>, AudioError>)
    requires
        can_stream(file, block_length, frame_length, hop_length),
    ensures
        streamed(file, block_length, frame_length, hop_length, r),
{
    let hop: usize = match hop_length {
        Some(hop) => hop,
        None => frame_length,
    };
    match file::read_all(file) {
        Ok(samples) => Ok(blocks::cut_blocks(&samples, block_length, frame_length, hop)),
        Err(e) => Err(e),
    }
}

/// [`stream`], or `None` where the blocks cannot be cut.
pub fn try_stream(
    file: WavFile,
    block_length: usize,
    frame_length: usize,
    hop_length: Option<usize>,
) -> (r: Option<Result<Vec<Vec<u32>>, AudioError>>)
    ensures
        r is Some <==> can_stream(file, block_length, frame_length, hop_length),
        r matches Some(outcome) ==> streamed(
            file,
            block_length,
            frame_length,
            hop_length,
            outcome,
        ),
{
    let hop: usize = match hop_length {
        Some(hop) => hop,
        None => frame_length,
    };
    if hop > 0 && blocks::can_make(1, block_length, frame_length) {
        return Some(stream(file, block_length, frame_length, hop_length));
    }
    match file::read_all(file) {
        Ok(samples) => {
            if hop > 0 && samples.len() == 0 {
                let none: Vec<Vec<u32>> = Vec::new();
                proof {
                    blocks::lemma_step_count(0, hop as int, 0);
                    assert(blocks::contents(none@) =~= blocks::hopped_windows(
                        samples@,
                        block_length as nat,
                        frame_length as nat,
                        hop as nat,
                    ));
                }
                Some(Ok(none))
            } else {
                None
            }
        },
        Err(e) => Some(Err(e)),
    }
}

/// How many hops a chunk has: the fewest that hold a frame, and one at least.
pub open spec fn hops_per_chunk(frame: nat, hop: nat) -> int {
    if hop == 0 || frame == 0 {
        1
    } else {
        blocks::step_count(frame as int, hop as int)
    }
}

/// How many blocks a lazy stream starts in `n` samples: one per hop of each
/// chunk that these fill, and one for what is left.
pub open spec fn lazy_count(n: int, frame: nat, hop: nat) -> int {
    let hops = hops_per_chunk(frame, hop);
    let whole = n / (hops * hop);
    let left = n % (hops * hop);
    if hop == 0 {
        blocks::step_count(n, 0)
    } else if left > 0 {
        whole * hops + 1
    } else {
        whole * hops
    }
}

/// The blocks of a lazy stream, `limit` of them at most.
pub open spec fn lazy_windows(samples: Seq<u32>, limit: nat, frame: nat, hop: nat) -> Seq<
    Seq<u32>,
> {
    blocks::hopped_windows(
        samples,
        blocks::least(limit as int, lazy_count(samples.len() as int, frame, hop)) as nat,
        frame,
        hop,
    )
}

/// A chunk holds a frame, and without its last hop it does not.
pub proof fn lemma_hops_per_chunk(frame: nat, hop: nat)
    requires
        hop > 0,
    ensures
        hops_per_chunk(frame, hop) >= 1,
        hops_per_chunk(frame, hop) * hop >= frame,
        hops_per_chunk(frame, hop) * hop > 0,
        hops_per_chunk(frame, hop) > 1 ==> (hops_per_chunk(frame, hop) - 1) * hop < frame,
        hops_per_chunk(frame, hop) > 1 ==> hop < frame,
        hop >= frame ==> hops_per_chunk(frame, hop) == 1,
{
    let hops = hops_per_chunk(frame, hop);
    if frame > 0 {
        blocks::lemma_step_count(frame as int, hop as int, 0);
        blocks::lemma_step_count(frame as int, hop as int, 1);
        blocks::lemma_step_count(frame as int, hop as int, hops);
        blocks::lemma_step_count(frame as int, hop as int, hops - 1);
    }
    assert(hops * hop >= hop) by (nonlinear_arith)
        requires
            hops >= 1,
    ;
}

/// Samples that do not fill a chunk start one block.
pub proof fn lemma_count_within_chunk(n: int, frame: nat, hop: nat)
    requires
        hop > 0,
        0 <= n < hops_per_chunk(frame, hop) * hop,
    ensures
        lazy_count(n, frame, hop) == if n > 0 {
            1int
        } else {
            0
        },
{
    let length = hops_per_chunk(frame, hop) * hop;
    vstd::arithmetic::div_mod::lemma_basic_div(n, length);
    vstd::arithmetic::div_mod::lemma_small_mod(n as nat, length as nat);
    assert(0 * hops_per_chunk(frame, hop) == 0);
}

/// A chunk starts one block per hop, and then the count starts anew.
pub proof fn lemma_count_after_chunk(n: int, frame: nat, hop: nat)
    requires
        hop > 0,
        n >= hops_per_chunk(frame, hop) * hop,
    ensures
        lazy_count(n, frame, hop) == hops_per_chunk(frame, hop) + lazy_count(
            n - hops_per_chunk(frame, hop) * hop,
            frame,
            hop,
        ),
{
    let hops = hops_per_chunk(frame, hop);
    let length = hops * hop;
    lemma_hops_per_chunk(frame, hop);
    vstd::arithmetic::div_mod::lemma_div_plus_one(n - length, length);
    vstd::arithmetic::div_mod::lemma_mod_add_multiples_vanish(n - length, length);
    assert((1 + (n - length) / length) * hops == hops + (n - length) / length * hops)
        by (nonlinear_arith);
}

/// No count is negative.
pub proof fn lemma_count_is_natural(n: int, frame: nat, hop: nat)
    requires
        n >= 0,
    ensures
        lazy_count(n, frame, hop) >= 0,
{
    if hop > 0 {
        let hops = hops_per_chunk(frame, hop);
        lemma_hops_per_chunk(frame, hop);
        vstd::arithmetic::div_mod::lemma_div_pos_is_pos(n, hops * hop);
        assert(n / (hops * hop) * hops >= 0) by (nonlinear_arith)
            requires
                n / (hops * hop) >= 0,
                hops >= 1,
        ;
    }
}

/// Gathers samples and cuts them into blocks.
pub struct Chunker {
    chunk: Vec<u32>,
    skip: usize,
    phase: usize,
    hops: usize,
    block_count: usize,
    block_length: usize,
    frame_length: usize,
    hop: usize,
}

impl Chunker {
    /// The samples that have been gathered for the next block.
    pub closed spec fn chunk(&self) -> Seq<u32> {
        self.chunk@
    }

    /// How many samples are passed over before the next block starts.
    pub closed spec fn skip(&self) -> nat {
        self.skip as nat
    }

    /// How many hops the next block starts after its chunk does.
    pub closed spec fn phase(&self) -> nat {
        self.phase as nat
    }

    /// How many hops a chunk has.
    pub closed spec fn hops(&self) -> nat {
        self.hops as nat
    }

    /// How many blocks have been cut.
    pub closed spec fn block_count(&self) -> nat {
        self.block_count as nat
    }

    /// How many blocks are cut at most.
    pub closed spec fn block_length(&self) -> nat {
        self.block_length as nat
    }

    /// How many samples a block holds.
    pub closed spec fn frame_length(&self) -> nat {
        self.frame_length as nat
    }

    /// How far apart blocks start.
    pub closed spec fn hop(&self) -> nat {
        self.hop as nat
    }

    /// How many blocks are still wanted.
    pub open spec fn wanted(&self) -> nat {
        (self.block_length() - self.block_count()) as nat
    }

    /// How many blocks the next `n` samples are to start, if there are no more.
    pub open spec fn due(&self, n: int) -> nat {
        let count = lazy_count(self.phase() * self.hop() + n, self.frame_length(), self.hop());
        if count > self.phase() {
            (count - self.phase()) as nat
        } else {
            0
        }
    }

    /// What holds of every chunker: there are no more blocks than wanted, the
    /// next one is of a chunk, and the samples that wait are those of one block,
    /// and not all of these.
    pub open spec fn wf(&self) -> bool {
        &&& self.block_count() <= self.block_length()
        &&& self.hops() == hops_per_chunk(self.frame_length(), self.hop())
        &&& self.phase() < self.hops()
        &&& self.chunk().len() > 0 ==> self.chunk().len() < self.frame_length() && self.skip()
            == 0
    }

    /// Whether two chunkers cut blocks of the same shape.
    pub open spec fn same_shape(&self, other: &Self) -> bool {
        &&& self.block_length() == other.block_length()
        &&& self.frame_length() == other.frame_length()
        &&& self.hop() == other.hop()
    }

    /// The blocks that are still to come if the samples `rest` do.
    pub open spec fn remaining(&self, rest: Seq<u32>) -> Seq<Seq<u32>> {
        let ahead = blocks::past(self.chunk() + rest, self.skip() as int);
        blocks::hopped_windows(
            ahead,
            blocks::least(self.wanted() as int, self.due(ahead.len() as int) as int) as nat,
            self.frame_length(),
            self.hop(),
        )
    }

    /// What a sample does: it is passed over, waits in the chunk, or completes
    /// a block, after which the chunk starts a hop later.
    pub open spec fn takes(&self, sample: u32, batch: Seq<Seq<u32>>, after: &Self) -> bool {
        let grown = self.chunk().push(sample);
        let used = blocks::least(self.hop() as int, grown.len() as int);
        &&& after.same_shape(self)
        &&& after.block_count() == self.block_count() + batch.len()
        &&& if self.skip() > 0 {
            &&& batch.len() == 0
            &&& after.chunk() == self.chunk()
            &&& after.skip() == self.skip() - 1
            &&& after.phase() == self.phase()
        } else if grown.len() < self.frame_length() {
            &&& batch.len() == 0
            &&& after.chunk() == grown
            &&& after.skip() == 0
            &&& after.phase() == self.phase()
        } else {
            &&& batch == seq![blocks::window(grown, 0, self.frame_length())]
            &&& after.chunk() == grown.skip(used)
            &&& after.skip() == self.hop() - used
            &&& after.phase() == if self.phase() + 1 < self.hops() {
                self.phase() + 1
            } else {
                0
            }
        }
    }

    /// A chunker that has seen no sample.
    pub fn new(block_length: usize, frame_length: usize, hop: usize) -> (chunker: Self)
        ensures
            chunker.wf(),
            chunker.chunk().len() == 0,
            chunker.skip() == 0,
            chunker.phase() == 0,
            chunker.block_count() == 0,
            chunker.block_length() == block_length,
            chunker.frame_length() == frame_length,
            chunker.hop() == hop,
    {
        let hops: usize = if hop == 0 || frame_length == 0 {
            1
        } else {
            (frame_length - 1) / hop + 1
        };
        proof {
            if hop > 0 {
                lemma_hops_per_chunk(frame_length as nat, hop as nat);
                vstd::arithmetic::div_mod::lemma_div_plus_one(frame_length - 1, hop as int);
            }
        }
        Chunker {
            chunk: Vec::new(),
            skip: 0,
            phase: 0,
            hops,
            block_count: 0,
            block_length,
            frame_length,
            hop,
        }
    }

    /// Whether all blocks that are wanted have been cut.
    pub fn is_done(&self) -> (done: bool)
        ensures
            done == (self.block_count() >= self.block_length()),
    {
        self.block_count >= self.block_length
    }

    /// Takes a sample, and gives the block that it completes, if it does.
    pub fn push(&mut self, sample: u32) -> (batch: Vec<Vec<u32>>)
        requires
            old(self).wf(),
            old(self).block_count() < old(self).block_length(),
            old(self).frame_length() * 4 <= isize::MAX,
            old(self).hop() > 0 || old(self).chunk().len() + 1 < old(self).frame_length(),
        ensures
            final(self).wf(),
            old(self).takes(sample, blocks::contents(batch@), final(self)),
    {
        if self.skip > 0 {
            self.skip = self.skip - 1;
            return Vec::new();
        }
        self.chunk.push(sample);
        let len: usize = self.chunk.len();
        if len < self.frame_length {
            return Vec::new();
        }
        let ghost grown = self.chunk@;
        let batch = blocks::cut_blocks(&self.chunk, 1, self.frame_length, self.hop);
        proof {
            blocks::lemma_step_count(len as int, self.hop as int, 0);
            assert(blocks::contents(batch@) =~= seq![
                blocks::window(grown, 0, self.frame_length as nat),
            ]);
        }
        let used: usize = if self.hop < len {
            self.hop
        } else {
            len
        };
        self.chunk = blocks::block_at(&self.chunk, used, len - used);
        assert(self.chunk@ =~= grown.skip(used as int));
        self.skip = self.hop - used;
        self.phase = if self.phase + 1 < self.hops {
            self.phase + 1
        } else {
            0
        };
        self.block_count = self.block_count + 1;
        batch
    }

    /// How many blocks the samples that wait are to start, if there are no more.
    fn due_at_end(&self) -> (count: usize)
        requires
            self.wf(),
        ensures
            self.chunk().len() > 0 ==> count == self.due(self.chunk().len() as int),
            self.chunk().len() == 0 ==> count == 0,
    {
        let n: usize = self.chunk.len();
        if n == 0 {
            return 0;
        }
        if self.phase == 0 {
            proof {
                assert(self.phase * self.hop == 0) by (nonlinear_arith)
                    requires
                        self.phase == 0,
                ;
                if self.hop > 0 {
                    lemma_hops_per_chunk(self.frame_length(), self.hop());
                    lemma_count_within_chunk(n as int, self.frame_length(), self.hop());
                }
            }
            return 1;
        }
        proof {
            let length = self.hops * self.hop;
            let left = (self.hops - self.phase) * self.hop;
            let count_from = self.phase * self.hop + n;
            lemma_hops_per_chunk(self.frame_length(), self.hop());
            assert(self.phase * self.hop + left == length) by (nonlinear_arith)
                requires
                    left == (self.hops - self.phase) * self.hop,
                    length == self.hops * self.hop,
            ;
            assert(0 <= left <= (self.hops - 1) * self.hop) by (nonlinear_arith)
                requires
                    left == (self.hops - self.phase) * self.hop,
                    1 <= self.phase < self.hops,
            ;
            assert(self.phase * self.hop >= 0) by (nonlinear_arith);
            if count_from < length {
                lemma_count_within_chunk(count_from, self.frame_length(), self.hop());
            } else {
                lemma_count_after_chunk(count_from, self.frame_length(), self.hop());
                lemma_count_within_chunk(n - left, self.frame_length(), self.hop());
            }
        }
        let left: usize = (self.hops - self.phase) * self.hop;
        if n < left {
            0
        } else if n == left {
            self.hops - self.phase
        } else {
            self.hops - self.phase + 1
        }
    }

    /// Gives the blocks that the samples which wait are to start, padded with
    /// zeros.
    pub fn finish(&mut self) -> (batch: Vec<Vec<u32>>)
        requires
            old(self).wf(),
            blocks::frame_fits(
                old(self).chunk().len(),
                old(self).wanted(),
                old(self).frame_length(),
            ),
        ensures
            final(self).wf(),
            final(self).same_shape(old(self)),
            blocks::contents(batch@) == old(self).remaining(Seq::empty()),
            final(self).chunk().len() == 0,
            final(self).skip() == old(self).skip(),
            final(self).phase() == old(self).phase(),
            final(self).block_count() == old(self).block_count() + batch@.len(),
    {
        let wanted: usize = self.block_length - self.block_count;
        let due: usize = self.due_at_end();
        let count: usize = if wanted < due {
            wanted
        } else {
            due
        };
        let batch = blocks::cut_blocks(&self.chunk, count, self.frame_length, self.hop);
        proof {
            let n = self.chunk@.len() as int;
            let ahead = blocks::past(self.chunk@ + Seq::empty(), self.skip as int);
            assert(ahead =~= self.chunk@);
            assert(blocks::contents(batch@).len() == batch@.len());
            if self.hop > 0 {
                blocks::lemma_step_count(n, self.hop as int, 0);
            }
            if n == 0 {
                lemma_no_windows(ahead, count as nat, self.frame_length(), self.hop());
                lemma_no_windows(
                    ahead,
                    blocks::least(self.wanted() as int, self.due(0) as int) as nat,
                    self.frame_length(),
                    self.hop(),
                );
                assert(blocks::contents(batch@) =~= old(self).remaining(Seq::empty()));
            }
        }
        self.chunk = Vec::new();
        self.block_count = self.block_count + batch.len();
        batch
    }
}

/// A block that is whole is due, and once it is cut, one block less is.
proof fn lemma_due(before: Chunker, n: int)
    requires
        before.wf(),
        before.hop() > 0,
        n > 0,
        n >= before.frame_length(),
    ensures
        before.due(n) > 0,
        ({
            let next = if before.phase() + 1 < before.hops() {
                (before.phase() + 1) as nat
            } else {
                0
            };
            let rest = if n > before.hop() {
                n - before.hop()
            } else {
                0
            };
            let count = lazy_count(next * before.hop() + rest, before.frame_length(), before.hop());
            before.due(n) - 1 == if count > next {
                count - next
            } else {
                0
            }
        }),
{
    let frame = before.frame_length();
    let hop = before.hop();
    let hops = before.hops();
    let phase = before.phase();
    let length = hops * hop;
    let from = phase * hop + n;
    lemma_hops_per_chunk(frame, hop);
    assert(phase * hop >= 0) by (nonlinear_arith);
    assert((phase + 1) * hop == phase * hop + hop) by (nonlinear_arith);
    assert((hops - 1) * hop == hops * hop - hop) by (nonlinear_arith);
    assert(0 * hop == 0);
    if hops == 1 {
        assert(1 * hop == hop);
        assert(phase * hop == 0) by (nonlinear_arith)
            requires
                phase == 0,
        ;
        if n < hop {
            lemma_count_within_chunk(n, frame, hop);
            lemma_count_within_chunk(0, frame, hop);
        } else {
            lemma_count_after_chunk(n, frame, hop);
            lemma_count_is_natural(n - hop, frame, hop);
        }
    } else if phase == 0 {
        assert(phase * hop == 0) by (nonlinear_arith)
            requires
                phase == 0,
        ;
        assert(1 * hop == hop);
        if n < length {
            lemma_count_within_chunk(n, frame, hop);
        } else {
            lemma_count_after_chunk(n, frame, hop);
            lemma_count_is_natural(n - length, frame, hop);
        }
    } else {
        assert(phase * hop >= hop) by (nonlinear_arith)
            requires
                phase >= 1,
        ;
        assert(from >= length);
        lemma_count_after_chunk(from, frame, hop);
        lemma_count_is_natural(from - length, frame, hop);
        if phase + 1 == hops {
            assert(phase * hop + hop == length);
        }
    }
}

/// A chunker gives every block that is to come: the one that a sample
/// completes, and the others later.
pub proof fn lemma_takes(
    before: Chunker,
    sample: u32,
    batch: Seq<Seq<u32>>,
    after: Chunker,
    rest: Seq<u32>,
)
    requires
        before.wf(),
        before.block_count() < before.block_length(),
        before.hop() > 0 || before.chunk().len() + 1 < before.frame_length(),
        before.takes(sample, batch, &after),
    ensures
        before.remaining(seq![sample] + rest) == batch + after.remaining(rest),
{
    let whole = before.chunk() + (seq![sample] + rest);
    let grown = before.chunk().push(sample);
    let ahead = blocks::past(whole, before.skip() as int);
    let later = blocks::past(after.chunk() + rest, after.skip() as int);
    if before.skip() > 0 {
        assert(ahead =~= later);
        assert(batch + after.remaining(rest) =~= after.remaining(rest));
    } else {
        assert(ahead =~= grown + rest);
        if grown.len() < before.frame_length() {
            assert(later =~= grown + rest);
            assert(batch + after.remaining(rest) =~= after.remaining(rest));
        } else {
            let due = before.due(ahead.len() as int);
            lemma_due(before, ahead.len() as int);
            assert(after.due(later.len() as int) == due - 1);
            blocks::lemma_first_window(
                ahead,
                blocks::least(before.wanted() as int, due as int) as nat,
                before.frame_length(),
                before.hop(),
            );
            assert(blocks::window(ahead, 0, before.frame_length()) =~= blocks::window(
                grown,
                0,
                before.frame_length(),
            ));
            assert(blocks::past(ahead, before.hop() as int) =~= later);
        }
    }
}

/// Whether the blocks of a lazy stream of `n` samples can be made, if there are
/// any: none is too long for a vector, and, unless the samples end within the
/// first, they do not all start at the first sample.
pub open spec fn can_run(n: nat, limit: nat, frame: nat, hop: nat) -> bool {
    n == 0 || limit == 0 || (frame * 4 <= isize::MAX && (hop > 0 || n < frame))
}

/// The blocks of a WAV file, to be taken from it batch by batch.
pub struct LazyStream {
    reader: SampleReader,
    chunker: Chunker,
    ready: bool,
}

impl LazyStream {
    /// What holds of every stream.
    pub closed spec fn wf(&self) -> bool {
        &&& self.chunker.wf()
        &&& self.ready ==> can_run(
            self.chunker.chunk().len() + self.reader.pending().len(),
            self.chunker.wanted(),
            self.chunker.frame_length(),
            self.chunker.hop(),
        )
    }

    /// Whether the blocks can be made.
    pub closed spec fn ready(&self) -> bool {
        self.ready
    }

    /// The blocks that are still to come.
    pub closed spec fn remaining(&self) -> Seq<Seq<u32>> {
        self.chunker.remaining(wav::values(self.reader.pending()))
    }

    /// What taking blocks from a stream gives, and leaves.
    pub open spec fn gives(self, r: Option<Vec<Vec<u32>>>, after: Self) -> bool {
        &&& after.wf()
        &&& after.ready()
        &&& r is None <==> self.remaining().len() == 0
        &&& r is None ==> after.remaining().len() == 0
        &&& r matches Some(batch) ==> batch@.len() > 0 && self.remaining() == blocks::contents(
            batch@,
        ) + after.remaining()
    }

    /// Whether the blocks can be made.
    pub fn is_ready(&self) -> (ready: bool)
        ensures
            ready == self.ready(),
    {
        self.ready
    }

    /// Reads on until there are blocks, and gives them; `None` when no block
    /// is left. A sample that cannot be read counts as zero.
    pub fn next_blocks(&mut self) -> (r: Option<Vec<Vec<u32>>>)
        requires
            old(self).wf(),
            old(self).ready(),
        ensures
            old(self).gives(r, *final(self)),
    {
        while !self.chunker.is_done()
            invariant
                self.wf(),
                self.ready,
                self.remaining() == old(self).remaining(),
            decreases self.reader.pending().len(),
        {
            let ghost pending = self.reader.pending();
            let ghost chunker = self.chunker;
            let sample: u32 = match self.reader.next_sample() {
                None => {
                    let batch = self.chunker.finish();
                    proof {
                        let nothing = blocks::past(Seq::empty(), chunker.skip() as int);
                        assert(wav::values(pending) =~= Seq::empty());
                        assert(self.chunker.chunk() + wav::values(self.reader.pending())
                            =~= Seq::empty());
                        assert(nothing =~= Seq::empty());
                        lemma_no_windows(
                            nothing,
                            blocks::least(
                                self.chunker.wanted() as int,
                                self.chunker.due(0) as int,
                            ) as nat,
                            chunker.frame_length(),
                            chunker.hop(),
                        );
                        assert(blocks::contents(batch@) + self.remaining() =~= blocks::contents(
                            batch@,
                        ));
                    }
                    return if batch.len() > 0 {
                        Some(batch)
                    } else {
                        None
                    };
                },
                Some(Ok(sample)) => sample,
                Some(Err(_)) => 0,
            };
            let batch = self.chunker.push(sample);
            proof {
                let rest = wav::values(self.reader.pending());
                assert(wav::values(pending) =~= seq![sample] + rest);
                lemma_takes(chunker, sample, blocks::contents(batch@), self.chunker, rest);
            }
            if batch.len() > 0 {
                return Some(batch);
            }
            assert(blocks::contents(batch@) + self.remaining() =~= self.remaining());
        }
        proof {
            let ahead = blocks::past(
                self.chunker.chunk() + wav::values(self.reader.pending()),
                self.chunker.skip() as int,
            );
            lemma_no_windows(ahead, 0, self.chunker.frame_length(), self.chunker.hop());
        }
        None
    }
}

/// There are no blocks of no samples, and none where none are wanted.
proof fn lemma_no_windows(samples: Seq<u32>, limit: nat, frame: nat, hop: nat)
    requires
        samples.len() == 0 || limit == 0,
    ensures
        blocks::hopped_windows(samples, limit, frame, hop).len() == 0,
{
    if hop > 0 {
        blocks::lemma_step_count(samples.len() as int, hop as int, 0);
    }
}

/// What comes of opening a file as a lazy stream: the stream, or why there is
/// none.
pub open spec fn opened_lazily(
    file: WavFile,
    block_length: usize,
    frame_length: usize,
    hop_length: Option<usize>,
    r: Result<LazyStream, AudioError>,
) -> bool {
    match file {
        WavFile::Missing(path) => r matches Err(AudioError::FileNotFound(p)) && p == path,
        WavFile::Unreadable(cause) => r matches Err(AudioError::IoError(e)) && e == cause,
        WavFile::Contents(bytes) => match wav::wav_header(bytes@) {
            None => r matches Err(AudioError::OpenError(e)) && e == wav::open_failure(bytes@),
            Some(header) => if wav::supported(header.format) {
                &&& r matches Ok(opened)
                &&& opened.wf()
                &&& opened.remaining() == lazy_windows(
                    wav::values(wav::stored_samples(bytes@, header)),
                    block_length as nat,
                    frame_length as nat,
                    blocks::hop_or_frame(hop_length, frame_length) as nat,
                )
                &&& opened.ready() == can_run(
                    header.samples as nat,
                    block_length as nat,
                    frame_length as nat,
                    blocks::hop_or_frame(hop_length, frame_length) as nat,
                )
            } else {
                r matches Err(AudioError::UnsupportedFormat)
            },
        },
    }
}

/// Opens a WAV file as a stream of blocks of `frame_length` samples, made as
/// the file is read. Blocks start `hop_length` samples apart, `frame_length` if
/// that is `None`. There are at most `block_length` blocks; those for which the
/// file is too short are padded with zeros.
pub fn stream_lazy(
    file: WavFile,
    block_length: usize,
    frame_length: usize,
    hop_length: Option<usize>,
) -> (r: Result<LazyStream, AudioError>)
    ensures
        opened_lazily(file, block_length, frame_length, hop_length, r),
{
    let (_, total, reader) = match file::open_file(file) {
        Ok(opened) => opened,
        Err(e) => {
            return Err(e);
        },
    };
    let hop: usize = match hop_length {
        Some(hop) => hop,
        None => frame_length,
    };
    let samples: usize = total as usize;
    let ready = blocks::can_make(samples, block_length, frame_length) && (samples == 0
        || block_length == 0 || hop > 0 || samples < frame_length);
    let chunker = Chunker::new(block_length, frame_length, hop);
    let opened = LazyStream { reader, chunker, ready };
    proof {
        let values = wav::values(opened.reader.pending());
        assert(blocks::past(opened.chunker.chunk() + values, 0) =~= values);
        assert(0 * hop == 0);
        lemma_count_is_natural(values.len() as int, frame_length as nat, hop as nat);
    }
    Ok(opened)
}

} // verus!
