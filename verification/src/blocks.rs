//! Fixed-size blocks cut out of a sequence of samples.
//!
//! A sample is the bit pattern of an IEEE 754 binary32 number, so the sample
//! that blocks are padded with, zero, is the pattern `0`.
use rayon::iter::{IntoParallelIterator, ParallelIterator};
use vstd::prelude::*;

verus! {

/// `length` samples from `start` on, with zeros where the samples have ended.
pub open spec fn window(samples: Seq<u32>, start: int, length: nat) -> Seq<u32> {
    Seq::new(
        length,
        |j: int|
            if start + j < samples.len() {
                samples[start + j]
            } else {
                0u32
            },
    )
}

/// How many multiples of `hop`, zero among them, lie below `n`. The only
/// multiple of zero is zero.
pub open spec fn step_count(n: int, hop: int) -> int {
    if hop == 0 {
        if n > 0 {
            1
        } else {
            0
        }
    } else {
        (n + hop - 1) / hop
    }
}

/// The smaller of two integers.
pub open spec fn least(a: int, b: int) -> int {
    if a <= b {
        a
    } else {
        b
    }
}

/// One window per multiple of `hop` below the number of samples, `limit` of
/// them at most.
pub open spec fn hopped_windows(samples: Seq<u32>, limit: nat, frame: nat, hop: nat) -> Seq<
    Seq<u32>,
> {
    Seq::new(
        least(limit as int, step_count(samples.len() as int, hop as int)) as nat,
        |k: int| window(samples, k * hop, frame),
    )
}

/// The distance between the starts of two blocks: the frame length, unless
/// another hop is asked for.
pub open spec fn hop_or_frame(hop_length: Option<usize>, frame_length: usize) -> usize {
    match hop_length {
        Some(hop) => hop,
        None => frame_length,
    }
}

/// What comes after the first `count` samples, nothing if there are no more.
pub open spec fn past(samples: Seq<u32>, count: int) -> Seq<u32> {
    samples.skip(least(count, samples.len() as int))
}

/// Whether a frame is short enough for a vector, or no block is to be made of
/// `n` samples.
pub open spec fn frame_fits(n: nat, limit: nat, frame: nat) -> bool {
    n == 0 || limit == 0 || frame * 4 <= isize::MAX
}

/// The contents of each block.
pub open spec fn contents(blocks: Seq<Vec<u32>>) -> Seq<Seq<u32>> {
    Seq::new(blocks.len(), |k: int| blocks[k]@)
}

/// The first `step_count(n, hop)` multiples of `hop` are the ones below `n`.
pub proof fn lemma_step_count(n: int, hop: int, k: int)
    requires
        n >= 0,
        hop > 0,
        k >= 0,
    ensures
        step_count(n, hop) >= 0,
        k < step_count(n, hop) <==> k * hop < n,
{
    let q = (n + hop - 1) / hop;
    assert(n + hop - 1 == hop * q + (n + hop - 1) % hop) by {
        vstd::arithmetic::div_mod::lemma_fundamental_div_mod(n + hop - 1, hop);
    }
    assert(0 <= (n + hop - 1) % hop < hop) by {
        vstd::arithmetic::div_mod::lemma_mod_bound(n + hop - 1, hop);
    }
    assert(q >= 0) by (nonlinear_arith)
        requires
            hop > 0,
            n >= 0,
            n - 1 < hop * q,
    ;
    if k < q {
        assert(k * hop <= (q - 1) * hop) by (nonlinear_arith)
            requires
                k <= q - 1,
                hop > 0,
        ;
        assert((q - 1) * hop == hop * q - hop) by (nonlinear_arith);
    } else {
        assert(k * hop >= q * hop) by (nonlinear_arith)
            requires
                k >= q,
                hop > 0,
        ;
        assert(q * hop == hop * q) by (nonlinear_arith);
    }
}

/// The first block, and then those of what comes after a hop.
pub proof fn lemma_first_window(samples: Seq<u32>, limit: nat, frame: nat, hop: nat)
    requires
        samples.len() > 0,
        limit > 0,
        hop > 0,
    ensures
        hopped_windows(samples, limit, frame, hop) == seq![window(samples, 0, frame)]
            + hopped_windows(past(samples, hop as int), (limit - 1) as nat, frame, hop),
{
    let n = samples.len() as int;
    let all = hopped_windows(samples, limit, frame, hop);
    let rest = past(samples, hop as int);
    let later = hopped_windows(rest, (limit - 1) as nat, frame, hop);
    lemma_step_count(n, hop as int, 0);
    lemma_step_count(n, hop as int, 1);
    lemma_step_count(rest.len() as int, hop as int, 0);
    if n > hop {
        assert(step_count(n, hop as int) == 1 + step_count(n - hop, hop as int)) by {
            vstd::arithmetic::div_mod::lemma_div_plus_one(n - 1, hop as int);
        }
    }
    assert forall|k: int| 0 <= k < all.len() implies all[k] == (seq![window(samples, 0, frame)]
        + later)[k] by {
        if k == 0 {
            assert(0 * hop == 0);
        } else {
            assert((k - 1) * hop + hop == k * hop) by (nonlinear_arith);
            assert((k - 1) * hop >= 0) by (nonlinear_arith)
                requires
                    k >= 1,
            ;
            assert(later[k - 1] =~= all[k]);
        }
    }
    assert(all =~= seq![window(samples, 0, frame)] + later);
}

/// Whether blocks of a frame can be made of `n` samples.
pub fn can_make(n: usize, limit: usize, frame: usize) -> (fits: bool)
    ensures
        fits == frame_fits(n as nat, limit as nat, frame as nat),
{
    n == 0 || limit == 0 || frame <= isize::MAX as usize / 4
}

/// Where blocks start: the multiples of `hop` below `n`, at most `limit`.
pub fn block_starts(n: usize, hop: usize, limit: usize) -> (starts: Vec<usize>)
    ensures
        starts@.len() == least(limit as int, step_count(n as int, hop as int)),
        forall|k: int|
            0 <= k < starts@.len() ==> #[trigger] starts@[k] == k * hop && starts@[k] < n,
{
    let mut starts: Vec<usize> = Vec::new();
    let mut at: usize = 0;
    proof {
        if hop > 0 {
            lemma_step_count(n as int, hop as int, 0);
        }
        assert(0 * hop == 0) by (nonlinear_arith);
    }
    while at < n && starts.len() < limit
        invariant
            at <= n,
            hop == 0 && at < n ==> starts@.len() == 0,
            at < n ==> at == starts@.len() * hop,
            at == n ==> starts@.len() == step_count(n as int, hop as int),
            starts@.len() <= limit,
            starts@.len() <= step_count(n as int, hop as int),
            forall|k: int|
                0 <= k < starts@.len() ==> #[trigger] starts@[k] == k * hop && starts@[k] < n,
        decreases n - at,
    {
        proof {
            if hop > 0 {
                lemma_step_count(n as int, hop as int, starts@.len() as int);
                lemma_step_count(n as int, hop as int, starts@.len() as int + 1);
            }
            assert((starts@.len() + 1) * hop == starts@.len() * hop + hop) by (nonlinear_arith);
        }
        starts.push(at);
        at = if 0 < hop && hop < n - at {
            at + hop
        } else {
            n
        };
    }
    starts
}

/// The window of `frame_length` samples that starts at `start`.
pub fn block_at(samples: &Vec<u32>, start: usize, frame_length: usize) -> (block: Vec<u32>)
    requires
        start <= samples@.len(),
        frame_length * 4 <= isize::MAX,
    ensures
        block@ == window(samples@, start as int, frame_length as nat),
{
    let end: usize = if frame_length < samples.len() - start {
        start + frame_length
    } else {
        samples.len()
    };
    let mut block: Vec<u32> = Vec::with_capacity(frame_length);
    let mut i: usize = start;
    while i < end
        invariant
            start <= i <= end <= samples@.len(),
            end - start <= frame_length,
            block@.len() == i - start,
            forall|j: int| 0 <= j < block@.len() ==> block@[j] == samples@[start + j],
        decreases end - i,
    {
        block.push(samples[i]);
        i = i + 1;
    }
    while block.len() < frame_length
        invariant
            start <= end <= samples@.len(),
            end - start == frame_length || end == samples@.len(),
            end - start <= block@.len() <= frame_length,
            forall|j: int| 0 <= j < end - start ==> block@[j] == samples@[start + j],
            forall|j: int| end - start <= j < block@.len() ==> block@[j] == 0,
        decreases frame_length - block@.len(),
    {
        block.push(0);
    }
    block
}

/// Builds the blocks at `starts` on rayon's thread pool.
///
/// Calls `rayon::iter::ParallelIterator::map` on the vector's parallel
/// iterator and collects: rayon keeps the order of an indexed iterator, so
/// block `k` is what [`block_at`] gives for start `k`.
#[verifier::external_body]
fn blocks_in_parallel(samples: &Vec<u32>, starts: Vec<usize>, frame_length: usize) -> (blocks: Vec<
    Vec<u32>,
>)
    requires
        starts@.len() > 0 ==> frame_length * 4 <= isize::MAX,
        forall|k: int| 0 <= k < starts@.len() ==> #[trigger] starts@[k] <= samples@.len(),
    ensures
        blocks@.len() == starts@.len(),
        forall|k: int|
            0 <= k < starts@.len() ==> #[trigger] blocks@[k]@ == window(
                samples@,
                starts@[k] as int,
                frame_length as nat,
            ),
{
    starts.into_par_iter().map(|i| block_at(samples, i, frame_length)).collect()
}

/// Cuts samples into blocks of `frame_length`, one per multiple of `hop`, at
/// most `block_length` of them; the last ones are padded with zeros.
pub fn cut_blocks(samples: &Vec<u32>, block_length: usize, frame_length: usize, hop: usize) -> (blocks:
    Vec<Vec<u32>>)
    requires
        frame_fits(samples@.len(), block_length as nat, frame_length as nat),
    ensures
        contents(blocks@) == hopped_windows(
            samples@,
            block_length as nat,
            frame_length as nat,
            hop as nat,
        ),
{
    proof {
        if hop > 0 {
            lemma_step_count(samples@.len() as int, hop as int, 0);
        }
    }
    let starts = block_starts(samples.len(), hop, block_length);
    let blocks = blocks_in_parallel(samples, starts, frame_length);
    assert(contents(blocks@) =~= hopped_windows(
        samples@,
        block_length as nat,
        frame_length as nat,
        hop as nat,
    ));
    blocks
}

} // verus!
