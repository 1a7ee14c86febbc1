//! What holds of the library as a whole.
use crate::audio;
use crate::audio::LoadStep;
use crate::binary32;
use crate::blocks;
use crate::error::AudioError;
use crate::file::WavFile;
use crate::stream;
use crate::stream::LazyStream;
use crate::wav;
use crate::wav::WavFormat;
use vstd::prelude::*;

verus! {

/// The bytes of each word stand four apart.
proof fn lemma_word_in_bytes(words: Seq<u32>, i: int)
    requires
        0 <= i < words.len(),
    ensures
        wav::all_word_bytes(words).len() == 4 * words.len(),
        wav::word_at(wav::all_word_bytes(words), 4 * i) == words[i],
    decreases words.len(),
{
    let head = words.drop_last();
    let tail = wav::word_bytes(words.last());
    let before = wav::all_word_bytes(head);
    let bytes = wav::all_word_bytes(words);
    assert(bytes == before + tail);
    lemma_bytes_length(head);
    if i < head.len() {
        lemma_word_in_bytes(head, i);
        assert(bytes[4 * i] == before[4 * i]);
        assert(bytes[4 * i + 1] == before[4 * i + 1]);
        assert(bytes[4 * i + 2] == before[4 * i + 2]);
        assert(bytes[4 * i + 3] == before[4 * i + 3]);
        assert(head[i] == words[i]);
    } else {
        assert(bytes[4 * i] == tail[0]);
        assert(bytes[4 * i + 1] == tail[1]);
        assert(bytes[4 * i + 2] == tail[2]);
        assert(bytes[4 * i + 3] == tail[3]);
    }
}

proof fn lemma_bytes_length(words: Seq<u32>)
    ensures
        wav::all_word_bytes(words).len() == 4 * words.len(),
    decreases words.len(),
{
    if words.len() > 0 {
        lemma_bytes_length(words.drop_last());
    }
}

/// Reading gives back what was exported: in a file that holds exported
/// samples, every sample can be read, and the samples are those that were
/// exported, brought into `[-1.0, 1.0]`; so they are the same if they were in
/// that range. Loading without offset and duration picks all of them.
pub proof fn law_export_is_read_back(
    samples: Seq<u32>,
    sample_rate: u32,
    channels: u16,
    file: Seq<u8>,
)
    requires
        4 * samples.len() + 60 <= u32::MAX,
        file == wav::float_wav(channels, sample_rate, binary32::all_clamped(samples)),
        wav::wav_header(file) == Some(
            wav::float_wav_header(channels, sample_rate, samples.len()),
        ),
    ensures
        ({
            let header = wav::wav_header(file)->0;
            let stored = wav::stored_samples(file, header);
            &&& wav::supported(header.format)
            &&& header.format.channels == channels
            &&& header.format.sample_rate == sample_rate
            &&& wav::all_readable(stored)
            &&& wav::values(stored) == binary32::all_clamped(samples)
            &&& audio::segment_fits(stored.len() as int, None, None, sample_rate, channels)
            &&& audio::segment(stored, None, None, sample_rate, channels) == stored
            &&& (forall|i: int|
                0 <= i < samples.len() ==> #[trigger] binary32::clamped(samples[i]) == samples[i])
                ==> wav::values(stored) == samples
        }),
{
    let header = wav::float_wav_header(channels, sample_rate, samples.len());
    let words = binary32::all_clamped(samples);
    let stored = wav::stored_samples(file, header);
    let head = wav::float_wav_head(channels, sample_rate, words.len());
    assert(head.len() == 68);
    lemma_bytes_length(words);
    assert forall|i: int| 0 <= i < stored.len() implies stored[i] == Some(words[i]) by {
        lemma_word_in_bytes(words, i);
        let bytes = wav::all_word_bytes(words);
        assert(file[68 + 4 * i] == bytes[4 * i]);
        assert(file[68 + 4 * i + 1] == bytes[4 * i + 1]);
        assert(file[68 + 4 * i + 2] == bytes[4 * i + 2]);
        assert(file[68 + 4 * i + 3] == bytes[4 * i + 3]);
    }
    assert(wav::values(stored) =~= words);
    assert(stored.subrange(0, stored.len() as int) =~= stored);
    if forall|i: int|
        0 <= i < samples.len() ==> #[trigger] binary32::clamped(samples[i]) == samples[i] {
        assert(words =~= samples);
    }
}

/// What is not given has a default: no offset is an offset of zero seconds, no
/// wish for one channel is one, no rate is that of the file, no hop is a frame.
pub proof fn law_defaults(
    stored: Seq<Option<u32>>,
    duration: Option<u32>,
    step: LoadStep,
    samples: Seq<u32>,
    format: WavFormat,
    sr: Option<u32>,
    frame_length: usize,
)
    ensures
        audio::segment(stored, None, duration, format.sample_rate, format.channels)
            == audio::segment(
            stored,
            Some(0),
            duration,
            format.sample_rate,
            format.channels,
        ),
        audio::first_step(step, samples, format, sr, None) == audio::first_step(
            step,
            samples,
            format,
            sr,
            Some(true),
        ),
        audio::rate_step(step, samples, format.sample_rate, format.channels, None)
            == audio::rate_step(
            step,
            samples,
            format.sample_rate,
            format.channels,
            Some(format.sample_rate),
        ),
        blocks::hop_or_frame(None, frame_length) == blocks::hop_or_frame(
            Some(frame_length),
            frame_length,
        ),
{
    let rate = format.sample_rate;
    let factor = binary32::rounded(rate as nat);
    assert(binary32::significand(0) == 0);
    assert(0 * factor == 0);
    assert(binary32::rounded(0) == 0) by {
        assert(binary32::unit_of(0) == 1);
    }
    vstd::arithmetic::power2::lemma_pow2_pos(149);
    assert(binary32::sample_index(0, rate) == 0) by {
        vstd::arithmetic::div_mod::lemma_basic_div(
            0,
            vstd::arithmetic::power2::pow2(149) as int,
        );
    }
}

/// Whatever steps a load takes, the audio that it ends in has the rate that was
/// asked for, and one channel unless the channels were to be kept.
pub proof fn law_loaded_audio_is_as_asked(
    step: LoadStep,
    samples: Seq<u32>,
    format: WavFormat,
    sr: Option<u32>,
    mono: Option<bool>,
    mixed: Seq<u32>,
    next: LoadStep,
)
    requires
        audio::first_step(step, samples, format, sr, mono),
        step matches LoadStep::Downmix(todo) ==> audio::rate_step(
            next,
            mixed,
            todo.sample_rate,
            1,
            todo.sr,
        ),
        !(step is Downmix) ==> next == step,
    ensures
        ({
            let rate = audio::final_rate(format.sample_rate, sr);
            let channels: u16 = if audio::wants_mono(mono) {
                1
            } else {
                format.channels
            };
            match next {
                LoadStep::Downmix(_) => false,
                LoadStep::Resample(todo) => todo.to_rate == rate && todo.channels == channels
                    && todo.from_rate == format.sample_rate && todo.from_rate != rate,
                LoadStep::Done(audio) => audio.sample_rate == rate && audio.channels == channels,
            }
        }),
{
}

/// Segments of a file are cut between frames: of samples in whole frames, a
/// segment starts with one and holds whole ones.
pub proof fn law_segments_are_whole_frames(
    total: int,
    offset: Option<u32>,
    duration: Option<u32>,
    rate: u32,
    channels: u16,
)
    requires
        channels > 0,
        total % channels as int == 0,
    ensures
        audio::segment_start(offset, rate, channels) % channels as int == 0,
        audio::segment_end(total, offset, duration, rate, channels) % channels as int == 0,
        (audio::segment_end(total, offset, duration, rate, channels) - audio::segment_start(
            offset,
            rate,
            channels,
        )) % channels as int == 0,
{
    let c = channels as int;
    let start = audio::segment_start(offset, rate, channels);
    let end = audio::segment_end(total, offset, duration, rate, channels);
    if let Some(seconds) = offset {
        let frames = binary32::sample_index(seconds, rate);
        assert(c * frames == frames * c) by (nonlinear_arith);
        vstd::arithmetic::div_mod::lemma_mod_multiples_basic(frames, c);
    }
    if let Some(seconds) = duration {
        let frames = binary32::sample_index(seconds, rate);
        assert(c * frames == frames * c) by (nonlinear_arith);
        vstd::arithmetic::div_mod::lemma_mod_multiples_basic(frames, c);
        vstd::arithmetic::div_mod::lemma_add_mod_noop(start, frames * c, c);
    }
    vstd::arithmetic::div_mod::lemma_sub_mod_noop(end, start, c);
}

/// Blocks hold a frame each, and there are no more of them than asked for, in
/// either way of streaming.
pub proof fn law_blocks_are_bounded(samples: Seq<u32>, limit: nat, frame: nat, hop: nat, k: int)
    ensures
        blocks::hopped_windows(samples, limit, frame, hop).len() <= limit,
        stream::lazy_windows(samples, limit, frame, hop).len() <= limit,
        0 <= k < blocks::hopped_windows(samples, limit, frame, hop).len()
            ==> blocks::hopped_windows(samples, limit, frame, hop)[k].len() == frame,
        0 <= k < stream::lazy_windows(samples, limit, frame, hop).len() ==> stream::lazy_windows(
            samples,
            limit,
            frame,
            hop,
        )[k].len() == frame,
{
    stream::lemma_count_is_natural(samples.len() as int, frame, hop);
    if hop > 0 {
        blocks::lemma_step_count(samples.len() as int, hop as int, 0);
    }
}

/// With hops no longer than a frame, and as many blocks as there are hops, no
/// sample is lost: sample `i` stands in the block of the hop that it is in.
pub proof fn law_blocks_hold_every_sample(
    samples: Seq<u32>,
    limit: nat,
    frame: nat,
    hop: nat,
    i: int,
)
    requires
        0 < hop <= frame,
        samples.len() <= limit * hop,
        0 <= i < samples.len(),
    ensures
        ({
            let cut = blocks::hopped_windows(samples, limit, frame, hop);
            &&& 0 <= i / hop as int
            &&& i / (hop as int) < cut.len()
            &&& 0 <= i % (hop as int) < frame
            &&& cut[i / (hop as int)][i % (hop as int)] == samples[i]
        }),
{
    let k = i / (hop as int);
    vstd::arithmetic::div_mod::lemma_fundamental_div_mod(i, hop as int);
    vstd::arithmetic::div_mod::lemma_mod_bound(i, hop as int);
    vstd::arithmetic::div_mod::lemma_div_pos_is_pos(i, hop as int);
    assert(hop * k == k * hop) by (nonlinear_arith);
    blocks::lemma_step_count(samples.len() as int, hop as int, k);
    assert(k < limit) by (nonlinear_arith)
        requires
            k * hop < limit * hop,
            hop > 0,
    ;
}

/// The number of samples that a file says it holds.
pub open spec fn sample_count(file: WavFile) -> nat {
    match file {
        WavFile::Contents(bytes) => match wav::wav_header(bytes@) {
            Some(header) => header.samples as nat,
            None => 0,
        },
        _ => 0,
    }
}

/// Whether a lazy stream starts a block at every hop of `n` samples: what is
/// left after the last whole chunk is no longer than a hop. So it is whenever
/// the hop is at least a frame.
pub open spec fn starts_at_every_hop(n: nat, frame: nat, hop: nat) -> bool {
    hop == 0 || n as int % (stream::hops_per_chunk(frame, hop) * hop) <= hop
}

/// A lazy stream starts no more blocks than there are hops, and as many exactly
/// where it starts one at each.
proof fn lemma_count_against_hops(n: nat, frame: nat, hop: nat)
    ensures
        stream::lazy_count(n as int, frame, hop) <= blocks::step_count(n as int, hop as int),
        stream::lazy_count(n as int, frame, hop) == blocks::step_count(n as int, hop as int)
            <==> starts_at_every_hop(n, frame, hop),
        hop >= frame ==> starts_at_every_hop(n, frame, hop),
{
    if hop > 0 {
        let hops = stream::hops_per_chunk(frame, hop);
        let length = hops * hop;
        let whole = n as int / length;
        let left = n as int % length;
        stream::lemma_hops_per_chunk(frame, hop);
        vstd::arithmetic::div_mod::lemma_fundamental_div_mod(n as int, length);
        vstd::arithmetic::div_mod::lemma_mod_bound(n as int, length);
        assert(n == left + whole * hops * hop) by (nonlinear_arith)
            requires
                n == length * whole + left,
                length == hops * hop,
        ;
        vstd::arithmetic::div_mod::lemma_hoist_over_denominator(
            left + hop - 1,
            whole * hops,
            hop,
        );
        assert(blocks::step_count(n as int, hop as int) == blocks::step_count(left, hop as int)
            + whole * hops);
        blocks::lemma_step_count(left, hop as int, 0);
        blocks::lemma_step_count(left, hop as int, 1);
        assert(1 * hop == hop);
    }
}

/// The two ways of streaming agree: the blocks of a lazy stream are the first of
/// those that are cut at once. They are all of them unless more than a hop is
/// left after the last whole chunk, where a lazy stream starts one block only,
/// and more blocks are wanted; so they are whenever the hop is at least a frame.
/// Where a file cannot be opened for one, it cannot be for the other; where a
/// sample cannot be read, only a lazy stream goes on.
pub proof fn law_lazy_blocks_are_blocks(
    file: WavFile,
    block_length: usize,
    frame_length: usize,
    hop_length: Option<usize>,
    at_once: Result<Vec<Vec<u32>>, AudioError>,
    lazily: Result<LazyStream, AudioError>,
)
    requires
        stream::streamed(file, block_length, frame_length, hop_length, at_once),
        stream::opened_lazily(file, block_length, frame_length, hop_length, lazily),
    ensures
        match at_once {
            Ok(cut) => {
                let hop = blocks::hop_or_frame(hop_length, frame_length);
                let count = stream::lazy_count(
                    sample_count(file) as int,
                    frame_length as nat,
                    hop as nat,
                );
                let same = starts_at_every_hop(
                    sample_count(file),
                    frame_length as nat,
                    hop as nat,
                ) || block_length <= count;
                &&& lazily matches Ok(opened)
                &&& opened.remaining() == first_blocks(blocks::contents(cut@), count)
                &&& opened.remaining() == blocks::contents(cut@) <==> same
                &&& hop >= frame_length ==> same
                &&& stream::can_stream(file, block_length, frame_length, hop_length)
                    ==> opened.ready()
            },
            Err(AudioError::HoundError(_)) => lazily is Ok,
            Err(AudioError::FileNotFound(path)) => lazily matches Err(
                AudioError::FileNotFound(p),
            ) && p == path,
            Err(AudioError::IoError(cause)) => lazily matches Err(AudioError::IoError(e)) && e
                == cause,
            Err(AudioError::OpenError(cause)) => lazily matches Err(AudioError::OpenError(e)) && e
                == cause,
            Err(AudioError::UnsupportedFormat) => lazily matches Err(
                AudioError::UnsupportedFormat,
            ),
            Err(_) => false,
        },
{
    if let Ok(cut) = at_once {
        let hop = blocks::hop_or_frame(hop_length, frame_length) as nat;
        let frame = frame_length as nat;
        let n = sample_count(file);
        let count = stream::lazy_count(n as int, frame, hop);
        let bytes = file->Contents_0;
        let samples = wav::values(wav::stored_samples(bytes@, wav::wav_header(bytes@)->0));
        let all = blocks::hopped_windows(samples, block_length as nat, frame, hop);
        let lazy = stream::lazy_windows(samples, block_length as nat, frame, hop);
        lemma_count_against_hops(n, frame, hop);
        stream::lemma_count_is_natural(n as int, frame, hop);
        if hop > 0 {
            blocks::lemma_step_count(n as int, hop as int, 0);
        }
        assert(samples.len() == n);
        assert(blocks::contents(cut@) == all);
        assert(lazy =~= first_blocks(all, count));
        if starts_at_every_hop(n, frame, hop) || block_length <= count {
            assert(lazy =~= all);
        } else {
            assert(lazy.len() < all.len());
        }
    }
}

/// No hop means a hop of a frame, in both ways of streaming.
pub proof fn law_no_hop_is_a_frame(
    file: WavFile,
    block_length: usize,
    frame_length: usize,
    given: Result<Vec<Vec<u32>>, AudioError>,
    left_out: Result<Vec<Vec<u32>>, AudioError>,
    lazily_given: Result<LazyStream, AudioError>,
    lazily_left_out: Result<LazyStream, AudioError>,
)
    requires
        stream::streamed(file, block_length, frame_length, Some(frame_length), given),
        stream::streamed(file, block_length, frame_length, None, left_out),
        stream::opened_lazily(file, block_length, frame_length, Some(frame_length), lazily_given),
        stream::opened_lazily(file, block_length, frame_length, None, lazily_left_out),
    ensures
        stream::can_stream(file, block_length, frame_length, Some(frame_length))
            == stream::can_stream(file, block_length, frame_length, None),
        given is Ok <==> left_out is Ok,
        given matches Ok(a) ==> (left_out matches Ok(b) && blocks::contents(a@)
            == blocks::contents(b@)),
        lazily_given is Ok <==> lazily_left_out is Ok,
        lazily_given matches Ok(a) ==> (lazily_left_out matches Ok(b) && a.remaining()
            == b.remaining() && a.ready() == b.ready()),
{
}

/// The number of blocks that is asked for only caps them: with a smaller one,
/// the same blocks come, as far as that number goes; with zero, none. This
/// holds of both ways of streaming.
pub proof fn law_block_count_only_caps(
    file: WavFile,
    more: usize,
    fewer: usize,
    frame_length: usize,
    hop_length: Option<usize>,
    longer: Result<Vec<Vec<u32>>, AudioError>,
    shorter: Result<Vec<Vec<u32>>, AudioError>,
    lazily_longer: Result<LazyStream, AudioError>,
    lazily_shorter: Result<LazyStream, AudioError>,
)
    requires
        fewer <= more,
        stream::streamed(file, more, frame_length, hop_length, longer),
        stream::streamed(file, fewer, frame_length, hop_length, shorter),
        stream::opened_lazily(file, more, frame_length, hop_length, lazily_longer),
        stream::opened_lazily(file, fewer, frame_length, hop_length, lazily_shorter),
    ensures
        stream::can_stream(file, more, frame_length, hop_length) ==> stream::can_stream(
            file,
            fewer,
            frame_length,
            hop_length,
        ),
        longer is Ok <==> shorter is Ok,
        longer matches Ok(a) ==> (shorter matches Ok(b) && blocks::contents(b@)
            == first_blocks(blocks::contents(a@), fewer as int)),
        lazily_longer is Ok <==> lazily_shorter is Ok,
        lazily_longer matches Ok(a) ==> (lazily_shorter matches Ok(b) && b.remaining()
            == first_blocks(a.remaining(), fewer as int) && (a.ready() ==> b.ready())),
{
    let hop = blocks::hop_or_frame(hop_length, frame_length) as nat;
    if let WavFile::Contents(bytes) = file {
        if let Some(header) = wav::wav_header(bytes@) {
            let samples = wav::values(wav::stored_samples(bytes@, header));
            let all = blocks::hopped_windows(samples, more as nat, frame_length as nat, hop);
            let capped = blocks::hopped_windows(samples, fewer as nat, frame_length as nat, hop);
            if hop > 0 {
                blocks::lemma_step_count(samples.len() as int, hop as int, 0);
            }
            assert(capped =~= first_blocks(all, fewer as int));
            stream::lemma_count_is_natural(samples.len() as int, frame_length as nat, hop);
            assert(stream::lazy_windows(samples, fewer as nat, frame_length as nat, hop)
                =~= first_blocks(
                stream::lazy_windows(samples, more as nat, frame_length as nat, hop),
                fewer as int,
            ));
        }
    }
}

/// The first `count` of some blocks, or all if there are fewer.
pub open spec fn first_blocks(windows: Seq<Seq<u32>>, count: int) -> Seq<Seq<u32>> {
    windows.take(blocks::least(count, windows.len() as int))
}

/// Streaming gives back what was exported: with hops no longer than a frame,
/// and as many blocks as there are hops, each sample stands, brought into
/// `[-1.0, 1.0]`, in the block of the hop that it is in.
pub proof fn law_exported_audio_streams_back(
    samples: Seq<u32>,
    sample_rate: u32,
    channels: u16,
    file: Vec<u8>,
    block_length: usize,
    frame_length: usize,
    hop: usize,
    r: Result<Vec<Vec<u32>>, AudioError>,
    i: int,
)
    requires
        4 * samples.len() + 60 <= u32::MAX,
        file@ == wav::float_wav(channels, sample_rate, binary32::all_clamped(samples)),
        wav::wav_header(file@) == Some(
            wav::float_wav_header(channels, sample_rate, samples.len()),
        ),
        0 < hop <= frame_length,
        samples.len() <= block_length * hop,
        stream::streamed(WavFile::Contents(file), block_length, frame_length, Some(hop), r),
        0 <= i < samples.len(),
    ensures
        ({
            &&& r matches Ok(cut)
            &&& 0 <= i / hop as int
            &&& i / (hop as int) < cut@.len()
            &&& cut@[i / (hop as int)]@.len() == frame_length
            &&& cut@[i / (hop as int)]@[i % (hop as int)] == binary32::clamped(samples[i])
        }),
{
    law_export_is_read_back(samples, sample_rate, channels, file@);
    let words = binary32::all_clamped(samples);
    law_blocks_hold_every_sample(
        words,
        block_length as nat,
        frame_length as nat,
        hop as nat,
        i,
    );
    let cut = r->Ok_0;
    assert(blocks::contents(cut@)[i / (hop as int)] == cut@[i / (hop as int)]@);
}

} // verus!
