//! What loading a file does, from the bytes of the file to the samples of the
//! audio.
use crate::audio;
use crate::audio::{AudioData, Downmix, LoadStep, Resample};
use crate::binary32;
use crate::binary32_laws;
use crate::error::{AudioError, ResampleError};
use crate::file::WavFile;
use crate::wav;
use crate::wav::{WavFormat, WavHeader};
use vstd::prelude::*;

verus! {

/// The four bytes at `at`, the least significant first.
pub open spec fn four_bytes(bytes: Seq<u8>, at: int) -> int {
    bytes[at] + 256 * bytes[at + 1] + 65536 * bytes[at + 2] + 16777216 * bytes[at + 3]
}

/// The two bytes at `at`, the least significant first, in two's complement.
pub open spec fn two_bytes(bytes: Seq<u8>, at: int) -> int {
    if bytes[at + 1] >= 128 {
        bytes[at] + 256 * bytes[at + 1] - 65536
    } else {
        bytes[at] + 256 * bytes[at + 1]
    }
}

/// How far a binary32 number, times 32767, is from an integer, both times
/// 2^149.
pub open spec fn off_by(bits: u32, sample: int) -> int {
    let a = binary32_laws::number(bits) * 32767;
    let b = sample * vstd::arithmetic::power2::pow2(149);
    if a >= b {
        a - b
    } else {
        b - a
    }
}

/// The samples that a step of a load holds.
pub open spec fn carried(step: LoadStep) -> Seq<u32> {
    match step {
        LoadStep::Downmix(todo) => todo.samples@,
        LoadStep::Resample(todo) => todo.samples@,
        LoadStep::Done(audio) => audio.samples@,
    }
}

/// A file of floats is read where its data begins, wherever that is: sample `i`
/// is the pattern in the four bytes that are its own. It can be read if the file
/// has these bytes, four to a sample.
pub proof fn law_floats_are_read_in_place(bytes: Seq<u8>, header: WavHeader, i: int)
    requires
        header.format.float,
        0 <= i < header.samples,
    ensures
        wav::stored_samples(bytes, header).len() == header.samples,
        wav::stored_samples(bytes, header)[i] is Some <==> header.bytes_per_sample == 4
            && header.data_start + 4 * i + 4 <= bytes.len(),
        wav::stored_samples(bytes, header)[i] matches Some(bits) ==> bits == four_bytes(
            bytes,
            header.data_start + 4 * i,
        ),
{
}

/// A data chunk of floats is read as it was written, wherever it begins: if it
/// holds the bytes of some words, these are the samples.
pub proof fn law_data_chunk_is_read_back(bytes: Seq<u8>, header: WavHeader, words: Seq<u32>)
    requires
        header.format.float,
        header.bytes_per_sample == 4,
        header.samples == words.len(),
        header.data_start + 4 * words.len() <= bytes.len(),
        forall|i: int|
            0 <= i < words.len() ==> four_bytes(bytes, header.data_start + 4 * i)
                == #[trigger] words[i],
    ensures
        wav::all_readable(wav::stored_samples(bytes, header)),
        wav::values(wav::stored_samples(bytes, header)) == words,
{
    let stored = wav::stored_samples(bytes, header);
    assert forall|i: int| 0 <= i < stored.len() implies #[trigger] stored[i] == Some(words[i]) by {
        law_floats_are_read_in_place(bytes, header, i);
        assert(four_bytes(bytes, header.data_start + 4 * i) == words[i]);
    }
    assert(wav::values(stored) =~= words);
}

/// The same, where the chunk is given as the bytes of the words one after the
/// other.
pub proof fn law_written_words_are_read_back(bytes: Seq<u8>, header: WavHeader, words: Seq<u32>)
    requires
        header.format.float,
        header.bytes_per_sample == 4,
        header.samples == words.len(),
        header.data_start + 4 * words.len() <= bytes.len(),
        bytes.subrange(header.data_start as int, header.data_start + 4 * words.len())
            == wav::all_word_bytes(words),
    ensures
        wav::all_readable(wav::stored_samples(bytes, header)),
        wav::values(wav::stored_samples(bytes, header)) == words,
{
    let data = wav::all_word_bytes(words);
    let at = header.data_start as int;
    let chunk = bytes.subrange(at, at + 4 * words.len());
    assert forall|i: int| 0 <= i < words.len() implies four_bytes(bytes, at + 4 * i)
        == #[trigger] words[i] by {
        lemma_word_bytes_stand_in_order(words, i);
        assert(chunk[4 * i] == bytes[at + 4 * i]);
        assert(chunk[4 * i + 1] == bytes[at + 4 * i + 1]);
        assert(chunk[4 * i + 2] == bytes[at + 4 * i + 2]);
        assert(chunk[4 * i + 3] == bytes[at + 4 * i + 3]);
    }
    law_data_chunk_is_read_back(bytes, header, words);
}

/// Words are written four bytes each, the least significant first.
pub proof fn lemma_word_bytes_stand_in_order(words: Seq<u32>, i: int)
    requires
        0 <= i < words.len(),
    ensures
        wav::all_word_bytes(words).len() == 4 * words.len(),
        four_bytes(wav::all_word_bytes(words), 4 * i) == words[i],
    decreases words.len(),
{
    let head = words.drop_last();
    let before = wav::all_word_bytes(head);
    let tail = wav::word_bytes(words.last());
    let bytes = wav::all_word_bytes(words);
    assert(bytes == before + tail);
    if head.len() > 0 {
        lemma_word_bytes_stand_in_order(head, 0);
    }
    assert(before.len() == 4 * head.len());
    if i < head.len() {
        lemma_word_bytes_stand_in_order(head, i);
        assert(bytes[4 * i] == before[4 * i]);
        assert(bytes[4 * i + 1] == before[4 * i + 1]);
        assert(bytes[4 * i + 2] == before[4 * i + 2]);
        assert(bytes[4 * i + 3] == before[4 * i + 3]);
    } else {
        assert(bytes[4 * i] == tail[0]);
        assert(bytes[4 * i + 1] == tail[1]);
        assert(bytes[4 * i + 2] == tail[2]);
        assert(bytes[4 * i + 3] == tail[3]);
    }
}

/// A file of 16-bit integers is read where its data begins: sample `i` is the
/// integer in the two bytes that are its own, divided by 32767. That is a finite
/// number with the sign of the integer, and no finite number is nearer to the
/// quotient. It can be read if the file has these bytes, two to a sample.
pub proof fn law_integers_are_divided(bytes: Seq<u8>, header: WavHeader, i: int, other: u32)
    requires
        !header.format.float,
        0 <= i < header.samples,
        other as nat / 0x80_0000 % 0x100 < 255,
    ensures
        wav::stored_samples(bytes, header).len() == header.samples,
        wav::stored_samples(bytes, header)[i] is Some <==> header.bytes_per_sample == 2
            && header.data_start + 2 * i + 2 <= bytes.len(),
        wav::stored_samples(bytes, header)[i] matches Some(bits) ==> {
            let sample = two_bytes(bytes, header.data_start + 2 * i);
            &&& bits as nat / 0x80_0000 % 0x100 < 255
            &&& off_by(bits, sample) <= off_by(other, sample)
            &&& bits < 0x8000_0000 <==> sample >= 0
            &&& sample == 0 ==> bits == 0
        },
{
    if header.bytes_per_sample == 2 && header.data_start + 2 * i + 2 <= bytes.len() {
        lemma_quotient_is_nearest(wav::pcm16_at(bytes, header.data_start + 2 * i), other);
    }
}

proof fn lemma_quotient_is_nearest(sample: i16, other: u32)
    requires
        other as nat / 0x80_0000 % 0x100 < 255,
    ensures
        ({
            let bits = binary32::normalized(sample);
            &&& bits as nat / 0x80_0000 % 0x100 < 255
            &&& off_by(bits, sample as int) <= off_by(other, sample as int)
            &&& bits < 0x8000_0000 <==> sample >= 0
            &&& sample == 0 ==> bits == 0
        }),
{
    let bits = binary32::normalized(sample);
    binary32_laws::law_patterns_are_numbers(other);
    binary32_laws::law_normalized_is_nearest(sample, other);
    binary32_laws::law_patterns_are_numbers(bits);
    binary32_laws::law_normalized_keeps_the_sign(sample);
}

/// A segment that starts at a time starts with a frame, the one that the time in
/// seconds times the rate counts up to: exactly at whole seconds, and but for
/// rounding at others. Without a time it starts at the first sample.
pub proof fn law_segment_starts_at_its_time(seconds: u32, n: nat, rate: u32, channels: u16)
    requires
        seconds < 0x7f80_0000,
        channels > 0,
    ensures
        ({
            let start = audio::segment_start(Some(seconds), rate, channels);
            let frame = start / channels as int;
            let whole = vstd::arithmetic::power2::pow2(149) as int;
            let exact = binary32_laws::number(seconds) * rate;
            &&& start == channels * frame
            &&& 0 <= frame <= usize::MAX
            &&& frame * whole * 0x1_0000_0000_0000 <= exact * 0x1_0000_0200_0001
            &&& frame < usize::MAX ==> (frame + 1) * whole * 0x1_0000_0000_0000 > exact
                * 0xffff_fe00_0001
            &&& binary32_laws::number(seconds) == n * whole && n * rate < 0x100_0000 ==> start
                == channels * (n * rate)
        }),
        audio::segment_start(None, rate, channels) == 0,
{
    let frames = binary32::sample_index(seconds, rate);
    binary32_laws::law_index_is_time_times_rate(seconds, rate);
    if binary32_laws::number(seconds) == n * vstd::arithmetic::power2::pow2(149) && n * rate
        < 0x100_0000 {
        binary32_laws::law_index_of_whole_seconds(seconds, n, rate);
    }
    vstd::arithmetic::div_mod::lemma_div_multiples_vanish(frames, channels as int);
}

/// A segment lasts for its duration in frames, counted as its start is.
/// Without a duration it goes on to the last sample.
pub proof fn law_segment_lasts_its_time(
    total: int,
    offset: Option<u32>,
    seconds: u32,
    n: nat,
    rate: u32,
    channels: u16,
)
    requires
        seconds < 0x7f80_0000,
        channels > 0,
    ensures
        ({
            let length = audio::segment_end(total, offset, Some(seconds), rate, channels)
                - audio::segment_start(offset, rate, channels);
            let frames = length / channels as int;
            let whole = vstd::arithmetic::power2::pow2(149) as int;
            let exact = binary32_laws::number(seconds) * rate;
            &&& length == channels * frames
            &&& 0 <= frames <= usize::MAX
            &&& frames * whole * 0x1_0000_0000_0000 <= exact * 0x1_0000_0200_0001
            &&& frames < usize::MAX ==> (frames + 1) * whole * 0x1_0000_0000_0000 > exact
                * 0xffff_fe00_0001
            &&& binary32_laws::number(seconds) == n * whole && n * rate < 0x100_0000 ==> length
                == channels * (n * rate)
        }),
        audio::segment_end(total, offset, None, rate, channels) == total,
{
    let frames = binary32::sample_index(seconds, rate);
    binary32_laws::law_index_is_time_times_rate(seconds, rate);
    if binary32_laws::number(seconds) == n * vstd::arithmetic::power2::pow2(149) && n * rate
        < 0x100_0000 {
        binary32_laws::law_index_of_whole_seconds(seconds, n, rate);
    }
    vstd::arithmetic::div_mod::lemma_div_multiples_vanish(frames, channels as int);
}

/// What a load gives, from the header of the file: which error when, and, if
/// none, every sample of the segment in order. The segment is counted in frames
/// of one sample to each channel.
pub proof fn law_load_gives_the_segment(
    file: Vec<u8>,
    header: WavHeader,
    sr: Option<u32>,
    mono: Option<bool>,
    offset: Option<u32>,
    duration: Option<u32>,
    r: Result<LoadStep, AudioError>,
)
    requires
        wav::wav_header(file@) == Some(header),
        audio::loaded(WavFile::Contents(file), sr, mono, offset, duration, r),
    ensures
        ({
            let format = header.format;
            let start: int = match offset {
                Some(seconds) => format.channels * binary32::sample_index(
                    seconds,
                    format.sample_rate,
                ),
                None => 0,
            };
            let end: int = match duration {
                Some(seconds) => start + format.channels * binary32::sample_index(
                    seconds,
                    format.sample_rate,
                ),
                None => header.samples as int,
            };
            let width: int = if format.float {
                4
            } else {
                2
            };
            if format.bits_per_sample != 8 * width {
                r matches Err(AudioError::UnsupportedFormat)
            } else if offset matches Some(seconds) && 0x8000_0000 < seconds <= 0xff80_0000 {
                r matches Err(AudioError::InvalidInput(what)) && what@ == "negative offset"@
            } else if start > header.samples || end > header.samples {
                r matches Err(AudioError::InvalidRange)
            } else if start < end && (header.bytes_per_sample != width || header.data_start + width
                * end > file@.len()) {
                r matches Err(AudioError::HoundError(_))
            } else {
                &&& r matches Ok(step)
                &&& carried(step).len() == end - start
                &&& format.float ==> forall|i: int|
                    0 <= i < end - start ==> #[trigger] carried(step)[i] == four_bytes(
                        file@,
                        header.data_start + 4 * (start + i),
                    )
                &&& !format.float ==> forall|i: int|
                    0 <= i < end - start ==> #[trigger] carried(step)[i] == binary32::normalized(
                        two_bytes(file@, header.data_start + 2 * (start + i)) as i16,
                    )
            }
        }),
{
    let format = header.format;
    let start = audio::segment_start(offset, format.sample_rate, format.channels);
    let end = audio::segment_end(
        header.samples as int,
        offset,
        duration,
        format.sample_rate,
        format.channels,
    );
    let all = wav::stored_samples(file@, header);
    if let Some(seconds) = offset {
        binary32::lemma_sample_index_bounds(seconds, format.sample_rate);
        let index = binary32::sample_index(seconds, format.sample_rate);
        assert(format.channels * index >= 0) by (nonlinear_arith)
            requires
                index >= 0,
        ;
    }
    if let Some(seconds) = duration {
        binary32::lemma_sample_index_bounds(seconds, format.sample_rate);
        let index = binary32::sample_index(seconds, format.sample_rate);
        assert(format.channels * index >= 0) by (nonlinear_arith)
            requires
                index >= 0,
        ;
    }
    if wav::supported(format) && !audio::starts_before_zero(offset) && audio::segment_fits(
        header.samples as int,
        offset,
        duration,
        format.sample_rate,
        format.channels,
    ) {
        let stored = audio::segment(all, offset, duration, format.sample_rate, format.channels);
        assert forall|i: int| 0 <= i < end - start implies #[trigger] stored[i] == all[start
            + i] by {}
        if start < end {
            assert(stored[end - start - 1] == all[end - 1]);
        }
    }
}

/// Of integers, what a load gives is the quotient by 32767: no finite number is
/// nearer.
pub proof fn law_loaded_integers_are_divided(
    file: Vec<u8>,
    header: WavHeader,
    sr: Option<u32>,
    mono: Option<bool>,
    r: Result<LoadStep, AudioError>,
    i: int,
    other: u32,
)
    requires
        wav::wav_header(file@) == Some(header),
        !header.format.float,
        audio::loaded(WavFile::Contents(file), sr, mono, None, None, r),
        r is Ok,
        0 <= i < header.samples,
        other as nat / 0x80_0000 % 0x100 < 255,
    ensures
        ({
            let sample = two_bytes(file@, header.data_start + 2 * i);
            &&& r matches Ok(step)
            &&& carried(step).len() == header.samples
            &&& carried(step)[i] as nat / 0x80_0000 % 0x100 < 255
            &&& off_by(carried(step)[i], sample) <= off_by(other, sample)
            &&& carried(step)[i] < 0x8000_0000 <==> sample >= 0
        }),
{
    law_load_gives_the_segment(file, header, sr, mono, None, None, r);
    let sample = two_bytes(file@, header.data_start + 2 * i);
    let step = r->Ok_0;
    assert(carried(step)[i] == binary32::normalized(
        two_bytes(file@, header.data_start + 2 * (0 + i)) as i16,
    ));
    lemma_quotient_is_nearest(sample as i16, other);
}

/// What a load gives where no header is found.
pub proof fn law_load_without_a_header(
    file: WavFile,
    sr: Option<u32>,
    mono: Option<bool>,
    offset: Option<u32>,
    duration: Option<u32>,
    r: Result<LoadStep, AudioError>,
)
    requires
        audio::loaded(file, sr, mono, offset, duration, r),
    ensures
        r matches Err(AudioError::FileNotFound(_)) <==> file is Missing,
        r matches Err(AudioError::IoError(_)) <==> file is Unreadable,
        r matches Err(AudioError::OpenError(_)) <==> (file matches WavFile::Contents(bytes)
            && wav::wav_header(bytes@) is None),
        file matches WavFile::Missing(path) ==> (r matches Err(AudioError::FileNotFound(p)) && p
            == path),
        file matches WavFile::Unreadable(cause) ==> (r matches Err(AudioError::IoError(e)) && e
            == cause),
        file matches WavFile::Contents(bytes) ==> (r matches Err(AudioError::OpenError(e)) ==> e
            == wav::open_failure(bytes@)),
{
}

/// A part of a file, from one whole second on and for a number of whole seconds,
/// is what loading the whole file gives from the first frame of the one second
/// up to that of the other; if the file is shorter than that, there is none.
pub proof fn law_part_of_a_file(
    file: WavFile,
    header: WavHeader,
    sr: Option<u32>,
    mono: Option<bool>,
    offset: u32,
    from: nat,
    duration: u32,
    length: nat,
    all: Result<LoadStep, AudioError>,
    part: Result<LoadStep, AudioError>,
)
    requires
        file matches WavFile::Contents(bytes) && wav::wav_header(bytes@) == Some(header),
        offset < 0x7f80_0000,
        duration < 0x7f80_0000,
        binary32_laws::number(offset) == from * vstd::arithmetic::power2::pow2(149),
        binary32_laws::number(duration) == length * vstd::arithmetic::power2::pow2(149),
        from * header.format.sample_rate < 0x100_0000,
        length * header.format.sample_rate < 0x100_0000,
        audio::loaded(file, sr, mono, None, None, all),
        audio::loaded(file, sr, mono, Some(offset), Some(duration), part),
        all is Ok,
    ensures
        ({
            let first = header.format.channels * (from * header.format.sample_rate);
            let count = header.format.channels * (length * header.format.sample_rate);
            &&& all matches Ok(whole)
            &&& carried(whole).len() == header.samples
            &&& if first + count <= header.samples {
                part matches Ok(step) && carried(step) == carried(whole).subrange(
                    first,
                    first + count,
                )
            } else {
                part matches Err(AudioError::InvalidRange)
            }
        }),
{
    let bytes = file->Contents_0;
    let rate = header.format.sample_rate;
    binary32_laws::law_index_of_whole_seconds(offset, from, rate);
    binary32_laws::law_index_of_whole_seconds(duration, length, rate);
    law_load_gives_the_segment(bytes, header, sr, mono, None, None, all);
    law_load_gives_the_segment(bytes, header, sr, mono, Some(offset), Some(duration), part);
    let first = header.format.channels * (from * rate);
    let count = header.format.channels * (length * rate);
    assert(first >= 0 && count >= 0) by (nonlinear_arith)
        requires
            first == header.format.channels * (from * rate),
            count == header.format.channels * (length * rate),
    ;
    if first + count <= header.samples {
        assert(carried(part->Ok_0) =~= carried(all->Ok_0).subrange(first, first + count));
    }
}

/// What is to be done first with the samples of a segment: those of several
/// channels are mixed unless they are to be kept apart, else those at another
/// rate than asked for are resampled, else all is done. Whatever the step, it
/// holds every sample, and what is known of them.
pub proof fn law_first_step(
    step: LoadStep,
    samples: Seq<u32>,
    format: WavFormat,
    sr: Option<u32>,
    mono: Option<bool>,
)
    requires
        audio::first_step(step, samples, format, sr, mono),
    ensures
        carried(step) == samples,
        step is Downmix <==> format.channels > 1 && mono != Some(false),
        step is Resample <==> !(format.channels > 1 && mono != Some(false)) && (sr matches Some(
            target,
        ) && target != format.sample_rate),
        match step {
            LoadStep::Downmix(todo) => todo.channels == format.channels && todo.sample_rate
                == format.sample_rate && todo.sr == sr,
            LoadStep::Resample(todo) => sr == Some(todo.to_rate) && todo.from_rate
                == format.sample_rate && todo.channels == if mono == Some(false) {
                format.channels
            } else {
                1
            },
            LoadStep::Done(audio) => audio.sample_rate == format.sample_rate && audio.channels
                == if mono == Some(false) {
                format.channels
            } else {
                1
            },
        },
{
}

/// Of a load, the first step is the one for the format of the file, and holds
/// the samples of the segment.
pub proof fn law_load_takes_the_first_step(
    file: Vec<u8>,
    header: WavHeader,
    sr: Option<u32>,
    mono: Option<bool>,
    offset: Option<u32>,
    duration: Option<u32>,
    r: Result<LoadStep, AudioError>,
)
    requires
        wav::wav_header(file@) == Some(header),
        audio::loaded(WavFile::Contents(file), sr, mono, offset, duration, r),
    ensures
        r matches Ok(step) ==> {
            &&& carried(step) == wav::values(
                audio::segment(
                    wav::stored_samples(file@, header),
                    offset,
                    duration,
                    header.format.sample_rate,
                    header.format.channels,
                ),
            )
            &&& step is Downmix <==> header.format.channels > 1 && mono != Some(false)
            &&& match step {
                LoadStep::Downmix(todo) => todo.channels == header.format.channels
                    && todo.sample_rate == header.format.sample_rate && todo.sr == sr,
                LoadStep::Resample(todo) => sr == Some(todo.to_rate) && todo.to_rate
                    != header.format.sample_rate && todo.from_rate == header.format.sample_rate
                    && todo.channels == if mono == Some(false) {
                    header.format.channels
                } else {
                    1
                },
                LoadStep::Done(audio) => (sr is None || sr == Some(header.format.sample_rate))
                    && audio.sample_rate == header.format.sample_rate && audio.channels
                    == if mono == Some(false) {
                    header.format.channels
                } else {
                    1
                },
            }
        },
{
}

/// After mixing, a load goes on with what came of it, all of it: it is resampled
/// if another rate was asked for, and else it is the audio, of one channel.
pub proof fn law_mixed_samples_go_on(todo: Downmix, mixed: Seq<u32>, step: LoadStep)
    requires
        audio::rate_step(step, mixed, todo.sample_rate, 1, todo.sr),
    ensures
        carried(step) == mixed,
        match step {
            LoadStep::Downmix(_) => false,
            LoadStep::Resample(next) => todo.sr == Some(next.to_rate) && next.to_rate
                != todo.sample_rate && next.from_rate == todo.sample_rate && next.channels == 1,
            LoadStep::Done(audio) => (todo.sr is None || todo.sr == Some(todo.sample_rate))
                && audio.sample_rate == todo.sample_rate && audio.channels == 1,
        },
{
}

/// After resampling, a load ends in what came of it: the samples at the new
/// rate, or the error.
pub proof fn law_resampled_samples_are_the_audio(
    todo: Resample,
    outcome: Result<Vec<u32>, ResampleError>,
    r: Result<AudioData, AudioError>,
)
    requires
        todo.ends_in(outcome, r),
    ensures
        r is Ok <==> outcome is Ok,
        outcome matches Ok(samples) ==> (r matches Ok(audio) && audio.samples@ == samples@
            && audio.sample_rate == todo.to_rate && audio.channels == todo.channels),
        outcome matches Err(cause) ==> (r matches Err(AudioError::ResampleError(e)) && e == cause),
{
}

/// From the file to the audio, whatever steps a load takes: the rate is the one
/// that was asked for, that of the file if none was; there is one channel unless
/// they were to be kept; and the mixer and the resampler are each handed all
/// that there is.
pub proof fn law_load_to_the_end(
    file: Vec<u8>,
    header: WavHeader,
    sr: Option<u32>,
    mono: Option<bool>,
    offset: Option<u32>,
    duration: Option<u32>,
    r: Result<LoadStep, AudioError>,
    mixed: Seq<u32>,
    next: LoadStep,
    resampled: Vec<u32>,
    last: Result<AudioData, AudioError>,
)
    requires
        wav::wav_header(file@) == Some(header),
        audio::loaded(WavFile::Contents(file), sr, mono, offset, duration, r),
        r is Ok,
        r->Ok_0 matches LoadStep::Downmix(todo) ==> audio::rate_step(
            next,
            mixed,
            todo.sample_rate,
            1,
            todo.sr,
        ),
        !(r->Ok_0 is Downmix) ==> next == r->Ok_0,
        next matches LoadStep::Resample(todo) ==> todo.ends_in(Ok(resampled), last),
    ensures
        ({
            let step = r->Ok_0;
            let rate = match sr {
                Some(target) => target,
                None => header.format.sample_rate,
            };
            let channels: u16 = if mono == Some(false) {
                header.format.channels
            } else {
                1
            };
            &&& carried(next) == if step is Downmix {
                mixed
            } else {
                carried(step)
            }
            &&& match next {
                LoadStep::Downmix(_) => false,
                LoadStep::Resample(todo) => {
                    &&& todo.from_rate == header.format.sample_rate
                    &&& todo.to_rate == rate
                    &&& last matches Ok(audio)
                    &&& audio.samples@ == resampled@
                    &&& audio.sample_rate == rate
                    &&& audio.channels == channels
                },
                LoadStep::Done(audio) => audio.sample_rate == rate && audio.channels == channels,
            }
        }),
{
}

/// Each cause of failure becomes the error that is named after it.
pub proof fn law_causes_become_errors(
    open: hound::Error,
    io: std::io::Error,
    resampling: ResampleError,
    shape: ndarray::ShapeError,
)
    ensures
        <AudioError as vstd::std_specs::convert::FromSpec<hound::Error>>::from_spec(open)
            == AudioError::OpenError(open),
        <AudioError as vstd::std_specs::convert::FromSpec<std::io::Error>>::from_spec(io)
            == AudioError::IoError(io),
        <AudioError as vstd::std_specs::convert::FromSpec<ResampleError>>::from_spec(resampling)
            == AudioError::ResampleError(resampling),
        <AudioError as vstd::std_specs::convert::FromSpec<ndarray::ShapeError>>::from_spec(shape)
            == AudioError::ShapeError(shape),
{
}

} // verus!
