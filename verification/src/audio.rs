//! Audio in memory, and getting it out of and into WAV files.
use crate::binary32;
use crate::error::{AudioError, ResampleError};
use crate::file;
use crate::file::WavFile;
use crate::wav;
use crate::wav::WavFormat;
use vstd::prelude::*;

verus! {

/// Interleaved samples with their rate and the number of channels.
///
/// Samples are binary32 numbers, held as their bit patterns.
#[derive(Debug)]
pub struct AudioData {
    pub samples: Vec<u32>,
    /// Samples of each channel per second.
    pub sample_rate: u32,
    pub channels: u16,
}

impl AudioData {
    /// Puts audio together from its parts.
    pub fn new(samples: Vec<u32>, sample_rate: u32, channels: u16) -> (audio: Self)
        ensures
            audio == (AudioData { samples, sample_rate, channels }),
    {
        AudioData { samples, sample_rate, channels }
    }
}

impl Clone for AudioData {
    fn clone(&self) -> (copy: Self)
        ensures
            copy.samples@ == self.samples@,
            copy.sample_rate == self.sample_rate,
            copy.channels == self.channels,
    {
        let copy = AudioData {
            samples: self.samples.clone(),
            sample_rate: self.sample_rate,
            channels: self.channels,
        };
        assert(copy.samples@ =~= self.samples@);
        copy
    }
}

/// Audio whose channels are to be mixed into one before loading goes on.
#[derive(Debug)]
pub struct Downmix {
    /// The interleaved samples.
    pub samples: Vec<u32>,
    pub channels: u16,
    pub sample_rate: u32,
    /// The rate that was asked for.
    pub sr: Option<u32>,
}

/// Audio that is to be resampled before loading is done.
#[derive(Debug)]
pub struct Resample {
    pub samples: Vec<u32>,
    pub from_rate: u32,
    pub to_rate: u32,
    /// The number of channels of the audio that is loaded.
    pub channels: u16,
}

/// How far loading has come, and what is needed for it to go on.
#[derive(Debug)]
pub enum LoadStep {
    Downmix(Downmix),
    Resample(Resample),
    Done(AudioData),
}

/// Whether a segment is to start before the audio does.
pub open spec fn starts_before_zero(offset: Option<u32>) -> bool {
    offset matches Some(seconds) && binary32::below_zero(seconds)
}

/// The index of the first sample of a segment, at which a frame starts: one
/// sample of each channel.
pub open spec fn segment_start(offset: Option<u32>, rate: u32, channels: u16) -> int {
    match offset {
        Some(seconds) => channels * binary32::sample_index(seconds, rate),
        None => 0,
    }
}

/// The index after the last sample of a segment that lasts for `duration`, or
/// up to the last of `total` samples.
pub open spec fn segment_end(
    total: int,
    offset: Option<u32>,
    duration: Option<u32>,
    rate: u32,
    channels: u16,
) -> int {
    match duration {
        Some(seconds) => segment_start(offset, rate, channels) + channels
            * binary32::sample_index(seconds, rate),
        None => total,
    }
}

/// Whether a segment lies within `total` samples.
pub open spec fn segment_fits(
    total: int,
    offset: Option<u32>,
    duration: Option<u32>,
    rate: u32,
    channels: u16,
) -> bool {
    segment_start(offset, rate, channels) <= total && segment_end(
        total,
        offset,
        duration,
        rate,
        channels,
    ) <= total
}

/// The samples of a segment.
pub open spec fn segment(
    stored: Seq<Option<u32>>,
    offset: Option<u32>,
    duration: Option<u32>,
    rate: u32,
    channels: u16,
) -> Seq<Option<u32>> {
    stored.subrange(
        segment_start(offset, rate, channels),
        segment_end(stored.len() as int, offset, duration, rate, channels),
    )
}

/// Whether a request is for one channel: it is unless it says otherwise.
pub open spec fn wants_mono(mono: Option<bool>) -> bool {
    mono != Some(false)
}

/// The rate of the audio that a request at rate `sr` gives.
pub open spec fn final_rate(sample_rate: u32, sr: Option<u32>) -> u32 {
    match sr {
        Some(target) => target,
        None => sample_rate,
    }
}

/// What is to be done with samples that have their final number of channels:
/// they are resampled if another rate is asked for, and done with if not.
pub open spec fn rate_step(
    step: LoadStep,
    samples: Seq<u32>,
    sample_rate: u32,
    channels: u16,
    sr: Option<u32>,
) -> bool {
    if final_rate(sample_rate, sr) != sample_rate {
        step matches LoadStep::Resample(todo) && todo.samples@ == samples && todo.from_rate
            == sample_rate && todo.to_rate == final_rate(sample_rate, sr) && todo.channels
            == channels
    } else {
        step matches LoadStep::Done(audio) && audio.samples@ == samples && audio.sample_rate
            == sample_rate && audio.channels == channels
    }
}

/// What is to be done first with the samples of a segment: those of several
/// channels are mixed into one unless the request says otherwise.
pub open spec fn first_step(
    step: LoadStep,
    samples: Seq<u32>,
    format: WavFormat,
    sr: Option<u32>,
    mono: Option<bool>,
) -> bool {
    if format.channels > 1 && wants_mono(mono) {
        step matches LoadStep::Downmix(todo) && todo.samples@ == samples && todo.channels
            == format.channels && todo.sample_rate == format.sample_rate && todo.sr == sr
    } else {
        rate_step(
            step,
            samples,
            format.sample_rate,
            if wants_mono(mono) {
                1
            } else {
                format.channels
            },
            sr,
        )
    }
}

/// What is to be done with samples that have their final number of channels.
fn decide_rate(samples: Vec<u32>, sample_rate: u32, channels: u16, sr: Option<u32>) -> (step:
    LoadStep)
    ensures
        rate_step(step, samples@, sample_rate, channels, sr),
{
    match sr {
        Some(target) => {
            if target != sample_rate {
                LoadStep::Resample(
                    Resample { samples, from_rate: sample_rate, to_rate: target, channels },
                )
            } else {
                LoadStep::Done(AudioData::new(samples, target, channels))
            }
        },
        None => LoadStep::Done(AudioData::new(samples, sample_rate, channels)),
    }
}

/// The number of samples in a time, those of all channels counted; `None` if
/// that is more than an index can be.
fn samples_in(seconds: u32, rate: u32, channels: u16) -> (samples: Option<usize>)
    ensures
        match samples {
            Some(n) => n == channels * binary32::sample_index(seconds, rate),
            None => channels * binary32::sample_index(seconds, rate) > usize::MAX,
        },
{
    let frames: usize = binary32::seconds_to_index(seconds, rate);
    assert(frames * channels == channels * frames) by (nonlinear_arith);
    frames.checked_mul(channels as usize)
}

/// The indices at which a segment of `total` samples starts and ends.
pub fn segment_range(
    total: usize,
    rate: u32,
    channels: u16,
    offset: Option<u32>,
    duration: Option<u32>,
) -> (r: Result<(usize, usize), AudioError>)
    ensures
        if starts_before_zero(offset) {
            r matches Err(AudioError::InvalidInput(what)) && what@ == "negative offset"@
        } else if segment_fits(total as int, offset, duration, rate, channels) {
            r matches Ok(range) && range.0 == segment_start(offset, rate, channels) && range.1
                == segment_end(total as int, offset, duration, rate, channels) && range.0
                <= range.1 <= total
        } else {
            r matches Err(AudioError::InvalidRange)
        },
{
    proof {
        if let Some(seconds) = duration {
            binary32::lemma_sample_index_bounds(seconds, rate);
            assert(channels * binary32::sample_index(seconds, rate) >= 0) by (nonlinear_arith)
                requires
                    binary32::sample_index(seconds, rate) >= 0,
            ;
        }
    }
    let start: usize = match offset {
        Some(seconds) => {
            if binary32::is_below_zero(seconds) {
                return Err(AudioError::InvalidInput("negative offset".to_string()));
            }
            match samples_in(seconds, rate, channels) {
                Some(start) => start,
                None => {
                    return Err(AudioError::InvalidRange);
                },
            }
        },
        None => 0,
    };
    if start > total {
        return Err(AudioError::InvalidRange);
    }
    match duration {
        Some(seconds) => match samples_in(seconds, rate, channels) {
            Some(length) => {
                if length > total - start {
                    return Err(AudioError::InvalidRange);
                }
                Ok((start, start + length))
            },
            None => Err(AudioError::InvalidRange),
        },
        None => Ok((start, total)),
    }
}

/// What is to be done first with the samples of a segment.
pub fn begin_load(samples: Vec<u32>, format: WavFormat, sr: Option<u32>, mono: Option<bool>) -> (step:
    LoadStep)
    ensures
        first_step(step, samples@, format, sr, mono),
{
    let one_channel = match mono {
        Some(wanted) => wanted,
        None => true,
    };
    if format.channels > 1 && one_channel {
        return LoadStep::Downmix(
            Downmix { samples, channels: format.channels, sample_rate: format.sample_rate, sr },
        );
    }
    let channels: u16 = if one_channel {
        1
    } else {
        format.channels
    };
    decide_rate(samples, format.sample_rate, channels, sr)
}

/// What comes of loading a file: the first step to take with the samples of a
/// segment, or why there are none.
pub open spec fn loaded(
    file: WavFile,
    sr: Option<u32>,
    mono: Option<bool>,
    offset: Option<u32>,
    duration: Option<u32>,
    r: Result<LoadStep, AudioError>,
) -> bool {
    match file {
        WavFile::Missing(path) => r matches Err(AudioError::FileNotFound(p)) && p == path,
        WavFile::Unreadable(cause) => r matches Err(AudioError::IoError(e)) && e == cause,
        WavFile::Contents(bytes) => match wav::wav_header(bytes@) {
            None => r matches Err(AudioError::OpenError(e)) && e == wav::open_failure(bytes@),
            Some(header) => if !wav::supported(header.format) {
                r matches Err(AudioError::UnsupportedFormat)
            } else if starts_before_zero(offset) {
                r matches Err(AudioError::InvalidInput(what)) && what@ == "negative offset"@
            } else if !segment_fits(
                header.samples as int,
                offset,
                duration,
                header.format.sample_rate,
                header.format.channels,
            ) {
                r matches Err(AudioError::InvalidRange)
            } else {
                let stored = segment(
                    wav::stored_samples(bytes@, header),
                    offset,
                    duration,
                    header.format.sample_rate,
                    header.format.channels,
                );
                if wav::all_readable(stored) {
                    r matches Ok(step) && first_step(
                        step,
                        wav::values(stored),
                        header.format,
                        sr,
                        mono,
                    ) && stored.len() as int % header.format.channels as int == 0
                } else {
                    r matches Err(AudioError::HoundError(_))
                }
            },
        },
    }
}

/// Loads audio from a WAV file of 16-bit integers or 32-bit floats.
///
/// - `sr` is the rate to resample to; `None` keeps that of the file.
/// - `mono` mixes the channels into one unless it is `Some(false)`.
/// - `offset` and `duration`, binary32 patterns of seconds, pick a segment of
///   whole frames; `None` starts at the start, and goes on to the end. A
///   negative offset is an error, and so is a segment that reaches beyond the
///   samples of the file.
///
/// Mixing and resampling are the caller's: the step that is returned holds the
/// samples for it, and goes on with what comes of them.
pub fn load(
    file: WavFile,
    sr: Option<u32>,
    mono: Option<bool>,
    offset: Option<u32>,
    duration: Option<u32>,
) -> (r: Result<LoadStep, AudioError>)
    ensures
        loaded(file, sr, mono, offset, duration, r),
{
    let (format, total, reader) = match file::open_file(file) {
        Ok(opened) => opened,
        Err(e) => {
            return Err(e);
        },
    };
    let (start, end) = match segment_range(
        total as usize,
        format.sample_rate,
        format.channels,
        offset,
        duration,
    ) {
        Ok(range) => range,
        Err(e) => {
            return Err(e);
        },
    };
    proof {
        crate::laws::law_segments_are_whole_frames(
            total as int,
            offset,
            duration,
            format.sample_rate,
            format.channels,
        );
    }
    match file::read_range(reader, start, end) {
        Ok(samples) => Ok(begin_load(samples, format, sr, mono)),
        Err(e) => Err(e),
    }
}

impl Downmix {
    /// Goes on with the samples mixed into one channel.
    pub fn resume(self, mixed: Vec<u32>) -> (step: LoadStep)
        ensures
            rate_step(step, mixed@, self.sample_rate, 1, self.sr),
    {
        decide_rate(mixed, self.sample_rate, 1, self.sr)
    }
}

impl Resample {
    /// What a load ends in, given what came of resampling.
    pub open spec fn ends_in(
        self,
        outcome: Result<Vec<u32>, ResampleError>,
        r: Result<AudioData, AudioError>,
    ) -> bool {
        match outcome {
            Ok(samples) => r matches Ok(audio) && audio == (AudioData {
                samples,
                sample_rate: self.to_rate,
                channels: self.channels,
            }),
            Err(cause) => r matches Err(AudioError::ResampleError(e)) && e == cause,
        }
    }

    /// Goes on with what came of resampling.
    pub fn resume(self, outcome: Result<Vec<u32>, ResampleError>) -> (r: Result<
        AudioData,
        AudioError,
    >)
        ensures
            self.ends_in(outcome, r),
    {
        match outcome {
            Ok(samples) => Ok(AudioData::new(samples, self.to_rate, self.channels)),
            Err(cause) => Err(AudioError::from(cause)),
        }
    }
}

/// What comes of exporting audio: a file, unless a channel lacks its last
/// sample.
pub open spec fn exported(audio_data: AudioData, r: Result<Vec<u8>, AudioError>) -> bool {
    &&& audio_data.samples@.len() as int % audio_data.channels as int == 0 ==> r is Ok
    &&& audio_data.samples@.len() as int % audio_data.channels as int != 0 ==> (r matches Err(
        AudioError::HoundError(e),
    ) && e == wav::finish_failure(audio_data.channels, audio_data.samples@.len()))
    &&& r matches Ok(file) ==> file@ == wav::float_wav(
        audio_data.channels,
        audio_data.sample_rate,
        binary32::all_clamped(audio_data.samples@),
    )
    &&& r matches Ok(file) ==> (4 * audio_data.channels <= u16::MAX ==> wav::wav_header(file@)
        == Some(
        wav::float_wav_header(
            audio_data.channels,
            audio_data.sample_rate,
            audio_data.samples@.len(),
        ),
    ))
}

/// The WAV file of 32-bit floats that holds the audio, its samples brought
/// into `[-1.0, 1.0]`, with its rate and number of channels.
pub fn export(audio_data: &AudioData) -> (r: Result<Vec<u8>, AudioError>)
    requires
        audio_data.channels > 0,
        audio_data.sample_rate > 0,
        4 * audio_data.channels * audio_data.sample_rate <= u32::MAX,
        4 * audio_data.samples@.len() + 60 <= u32::MAX,
    ensures
        exported(*audio_data, r),
{
    let words = binary32::clamp_all(&audio_data.samples);
    match wav::encode_floats(&words, audio_data.channels, audio_data.sample_rate) {
        Ok(file) => Ok(file),
        Err(e) => Err(AudioError::HoundError(e)),
    }
}

} // verus!
