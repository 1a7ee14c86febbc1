//! WAV files: the samples that one holds, and the file that holds given
//! samples.
//!
//! Headers are read and files are written by `hound`. What is taken from it on
//! trust stands in this module: the functions marked as having an external
//! body, and the names for what they return.
use crate::binary32;
use crate::error::AudioError;
use std::io::Cursor;
use vstd::prelude::*;

verus! {

/// How a WAV file stores its samples.
#[derive(Clone, Copy, Debug, PartialEq, Eq)]
pub struct WavFormat {
    pub channels: u16,
    pub sample_rate: u32,
    pub bits_per_sample: u16,
    /// IEEE floats if true, integers if false.
    pub float: bool,
}

/// What the header of a WAV file says.
pub struct WavHeader {
    pub format: WavFormat,
    /// The number of bytes that a sample takes.
    pub bytes_per_sample: u16,
    /// The number of samples, those of all channels counted.
    pub samples: u32,
    /// Where the samples begin in the file.
    pub data_start: usize,
}

/// The little-endian 32-bit word at `at`.
pub open spec fn word_at(bytes: Seq<u8>, at: int) -> u32 {
    (bytes[at] + 0x100 * bytes[at + 1] + 0x1_0000 * bytes[at + 2] + 0x100_0000 * bytes[at
        + 3]) as u32
}

/// The little-endian 16-bit two's complement integer at `at`.
pub open spec fn pcm16_at(bytes: Seq<u8>, at: int) -> i16 {
    let unsigned = bytes[at] + 0x100 * bytes[at + 1];
    if unsigned < 0x8000 {
        unsigned as i16
    } else {
        (unsigned - 0x1_0000) as i16
    }
}

/// The little-endian bytes of a word.
pub open spec fn word_bytes(word: u32) -> Seq<u8> {
    seq![
        (word % 0x100) as u8,
        (word / 0x100 % 0x100) as u8,
        (word / 0x1_0000 % 0x100) as u8,
        (word / 0x100_0000) as u8,
    ]
}

/// The little-endian bytes of a half word.
pub open spec fn half_bytes(half: int) -> Seq<u8> {
    seq![(half % 0x100) as u8, (half / 0x100 % 0x100) as u8]
}

/// The little-endian bytes of each word in turn.
pub open spec fn all_word_bytes(words: Seq<u32>) -> Seq<u8>
    decreases words.len(),
{
    if words.len() == 0 {
        Seq::empty()
    } else {
        all_word_bytes(words.drop_last()) + word_bytes(words.last())
    }
}

/// What the data chunk of a file holds at 16-bit sample `i`: `None` where a
/// sample does not take two bytes, or where the file ends before it does.
pub open spec fn stored_pcm16(bytes: Seq<u8>, header: WavHeader, i: int) -> Option<i16> {
    if header.bytes_per_sample == 2 && header.data_start + 2 * i + 2 <= bytes.len() {
        Some(pcm16_at(bytes, header.data_start + 2 * i))
    } else {
        None
    }
}

/// What the data chunk of a file holds at float sample `i`, as a binary32
/// pattern.
pub open spec fn stored_float(bytes: Seq<u8>, header: WavHeader, i: int) -> Option<u32> {
    if header.bytes_per_sample == 4 && header.data_start + 4 * i + 4 <= bytes.len() {
        Some(word_at(bytes, header.data_start + 4 * i))
    } else {
        None
    }
}

/// The header that `hound` finds in a file, if it finds one.
pub uninterp spec fn wav_header(bytes: Seq<u8>) -> Option<WavHeader>;

/// What holds of every header that is found: there are channels, every one of
/// them has the same number of samples, and the four bytes before the samples
/// give the number of bytes that these take.
pub open spec fn consistent(bytes: Seq<u8>, header: WavHeader) -> bool {
    &&& header.format.channels > 0
    &&& header.samples as int % header.format.channels as int == 0
    &&& 4 <= header.data_start <= bytes.len()
    &&& word_at(bytes, header.data_start - 4) == header.samples * header.bytes_per_sample
}

/// `hound::WavReader`, a reader of one WAV file.
#[verifier::external_type_specification]
#[verifier::external_body]
#[verifier::reject_recursive_types(R)]
pub struct ExWavReader<R>(hound::WavReader<R>);

/// `hound::WavIntoSamples`, the samples that a reader has still to give.
#[verifier::external_type_specification]
#[verifier::external_body]
#[verifier::reject_recursive_types(R)]
#[verifier::reject_recursive_types(S)]
pub struct ExWavIntoSamples<R, S>(hound::WavIntoSamples<R, S>);

/// `std::io::Cursor`, a position in a byte buffer.
#[verifier::external_type_specification]
#[verifier::external_body]
#[verifier::reject_recursive_types(T)]
pub struct ExCursor<T>(std::io::Cursor<T>);

/// The file that a reader was opened on.
pub uninterp spec fn reader_file(reader: hound::WavReader<Cursor<Vec<u8>>>) -> Seq<u8>;

/// The integers that are still to be read, `None` for each that cannot be.
pub uninterp spec fn pcm16_pending(
    samples: hound::WavIntoSamples<Cursor<Vec<u8>>, i16>,
) -> Seq<Option<i16>>;

/// The error that `hound` gives for a file in which it finds no header.
pub uninterp spec fn open_failure(bytes: Seq<u8>) -> hound::Error;

/// Opens a file with `hound::WavReader::new`: it succeeds exactly on the files
/// in which a header is found, and that header is consistent with the file.
/// Where it fails, the file alone decides with which error.
#[verifier::external_body]
fn open_reader(file: Vec<u8>) -> (r: Result<hound::WavReader<Cursor<Vec<u8>>>, hound::Error>)
    ensures
        r is Ok <==> wav_header(file@) is Some,
        r matches Ok(reader) ==> reader_file(reader) == file@ && consistent(
            file@,
            wav_header(file@)->0,
        ),
        r matches Err(e) ==> e == open_failure(file@),
{
    hound::WavReader::new(Cursor::new(file))
}

/// The format in the header, from `hound::WavReader::spec`.
#[verifier::external_body]
fn reader_format(reader: &hound::WavReader<Cursor<Vec<u8>>>) -> (format: WavFormat)
    ensures
        wav_header(reader_file(*reader)) matches Some(header) ==> format == header.format,
{
    let spec = reader.spec();
    WavFormat {
        channels: spec.channels,
        sample_rate: spec.sample_rate,
        bits_per_sample: spec.bits_per_sample,
        float: match spec.sample_format {
            hound::SampleFormat::Float => true,
            hound::SampleFormat::Int => false,
        },
    }
}

/// The number of samples in the header, from `hound::WavReader::len`.
#[verifier::external_body]
fn reader_len(reader: &hound::WavReader<Cursor<Vec<u8>>>) -> (len: u32)
    ensures
        wav_header(reader_file(*reader)) matches Some(header) ==> len == header.samples,
{
    reader.len()
}

/// The file, and where its samples begin, from `hound::WavReader::into_inner`:
/// a reader that has read no sample stands right before the first.
#[verifier::external_body]
fn reader_data(reader: hound::WavReader<Cursor<Vec<u8>>>) -> (r: (Vec<u8>, usize))
    ensures
        r.0@ == reader_file(reader),
        wav_header(reader_file(reader)) matches Some(header) ==> r.1 == header.data_start,
{
    let cursor = reader.into_inner();
    let position = cursor.position() as usize;
    (cursor.into_inner(), position)
}

/// The samples of a file of 16-bit integers, from
/// `hound::WavReader::into_samples`: as many as the header says, each read
/// from the file where it is stored.
#[verifier::external_body]
fn reader_pcm16(reader: hound::WavReader<Cursor<Vec<u8>>>) -> (samples: hound::WavIntoSamples<
    Cursor<Vec<u8>>,
    i16,
>)
    ensures
        wav_header(reader_file(reader)) matches Some(header) ==> (!header.format.float
            && header.format.bits_per_sample == 16 ==> pcm16_pending(samples) == Seq::new(
            header.samples as nat,
            |i: int| stored_pcm16(reader_file(reader), header, i),
        )),
{
    reader.into_samples()
}

/// The next sample, from the `next` of `hound::WavIntoSamples`: `None` at the
/// end, else the sample or the error in reading it.
#[verifier::external_body]
fn next_pcm16(samples: &mut hound::WavIntoSamples<Cursor<Vec<u8>>, i16>) -> (r: Option<
    Result<i16, hound::Error>,
>)
    ensures
        pcm16_pending(*old(samples)).len() == 0 ==> r is None && pcm16_pending(*final(samples))
            == pcm16_pending(*old(samples)),
        pcm16_pending(*old(samples)).len() > 0 ==> {
            &&& r matches Some(outcome) && (outcome matches Ok(sample) ==> pcm16_pending(
                *old(samples),
            )[0] == Some(sample)) && (outcome is Err ==> pcm16_pending(*old(samples))[0] is None)
            &&& pcm16_pending(*final(samples)) == pcm16_pending(*old(samples)).skip(1)
        },
{
    samples.next()
}

/// The `hound::Error` for a sample that the file ends within.
#[verifier::external_body]
fn truncated_sample() -> (e: hound::Error) {
    hound::Error::IoError(
        std::io::Error::new(std::io::ErrorKind::Other, "Failed to read enough bytes."),
    )
}

/// The `hound::Error` for samples that take a number of bytes at which they
/// cannot be read.
#[verifier::external_body]
fn unsupported_width() -> (e: hound::Error) {
    hound::Error::Unsupported
}

/// The formats whose samples are read: 16-bit integers and 32-bit floats.
pub open spec fn supported(format: WavFormat) -> bool {
    if format.float {
        format.bits_per_sample == 32
    } else {
        format.bits_per_sample == 16
    }
}

/// Whether samples of a format are read.
pub fn is_supported(format: WavFormat) -> (r: bool)
    ensures
        r == supported(format),
{
    if format.float {
        format.bits_per_sample == 32
    } else {
        format.bits_per_sample == 16
    }
}

/// The little-endian 32-bit word at `at`.
pub fn read_word(bytes: &Vec<u8>, at: usize) -> (word: u32)
    requires
        at + 4 <= bytes.len(),
    ensures
        word == word_at(bytes@, at as int),
{
    bytes[at] as u32 + 0x100 * bytes[at + 1] as u32 + 0x1_0000 * bytes[at + 2] as u32 + 0x100_0000
        * bytes[at + 3] as u32
}

/// Sample `i` of a file of a supported format as a binary32 pattern; integers
/// are divided by 32767.
pub open spec fn stored_sample(bytes: Seq<u8>, header: WavHeader, i: int) -> Option<u32> {
    if header.format.float {
        stored_float(bytes, header, i)
    } else {
        normalized_if_read(stored_pcm16(bytes, header, i))
    }
}

/// A 16-bit integer that could be read, divided by 32767.
pub open spec fn normalized_if_read(sample: Option<i16>) -> Option<u32> {
    match sample {
        Some(v) => Some(binary32::normalized(v)),
        None => None,
    }
}

/// All samples of a file, `None` for each that cannot be read.
pub open spec fn stored_samples(bytes: Seq<u8>, header: WavHeader) -> Seq<Option<u32>> {
    Seq::new(header.samples as nat, |i: int| stored_sample(bytes, header, i))
}

/// Whether each of the samples can be read.
pub open spec fn all_readable(stored: Seq<Option<u32>>) -> bool {
    forall|i: int| 0 <= i < stored.len() ==> (#[trigger] stored[i]) is Some
}

/// The samples, with zero for each that cannot be read.
pub open spec fn values(stored: Seq<Option<u32>>) -> Seq<u32> {
    Seq::new(
        stored.len(),
        |i: int|
            match stored[i] {
                Some(v) => v,
                None => 0u32,
            },
    )
}

/// Where the samples of an open file come from.
enum Source {
    /// Little-endian floats from byte `at` of the file on.
    Floats { file: Vec<u8>, at: usize, left: u32, four_bytes_each: bool },
    /// Integers that `hound` reads.
    Integers { samples: hound::WavIntoSamples<Cursor<Vec<u8>>, i16> },
}

/// The samples of an open WAV file, read one after the other.
pub struct SampleReader {
    source: Source,
}

impl SampleReader {
    /// The samples still to be read, `None` for each that cannot be.
    pub closed spec fn pending(&self) -> Seq<Option<u32>> {
        match self.source {
            Source::Floats { file, at, left, four_bytes_each } => Seq::new(
                left as nat,
                |i: int|
                    if four_bytes_each && at + 4 * i + 4 <= file@.len() {
                        Some(word_at(file@, at + 4 * i))
                    } else {
                        None
                    },
            ),
            Source::Integers { samples } => Seq::new(
                pcm16_pending(samples).len(),
                |i: int| normalized_if_read(pcm16_pending(samples)[i]),
            ),
        }
    }

    /// Reads the next sample: `None` at the end, an error for one that cannot
    /// be read.
    pub fn next_sample(&mut self) -> (r: Option<Result<u32, hound::Error>>)
        ensures
            old(self).pending().len() == 0 ==> r is None && final(self).pending() == old(
                self,
            ).pending(),
            old(self).pending().len() > 0 ==> {
                &&& r matches Some(outcome) && match outcome {
                    Ok(sample) => old(self).pending()[0] == Some(sample),
                    Err(_) => old(self).pending()[0] is None,
                }
                &&& final(self).pending() == old(self).pending().skip(1)
            },
    {
        let ghost before = self.pending();
        match &mut self.source {
            Source::Floats { file, at, left, four_bytes_each } => {
                if *left == 0 {
                    return None;
                }
                *left = *left - 1;
                if !*four_bytes_each {
                    assert(self.pending() =~= before.skip(1));
                    return Some(Err(unsupported_width()));
                }
                if file.len() < 4 || *at > file.len() - 4 {
                    assert(self.pending() =~= before.skip(1));
                    return Some(Err(truncated_sample()));
                }
                let i: usize = *at;
                let word: u32 = read_word(file, i);
                *at = i + 4;
                assert(self.pending() =~= before.skip(1));
                Some(Ok(word))
            },
            Source::Integers { samples } => {
                let r = match next_pcm16(samples) {
                    None => None,
                    Some(Ok(sample)) => Some(Ok(binary32::normalize(sample))),
                    Some(Err(e)) => Some(Err(e)),
                };
                assert(before.len() > 0 ==> self.pending() =~= before.skip(1));
                r
            },
        }
    }
}

/// Opens a WAV file of a supported format, and gives its format, the number of
/// its samples, and the samples.
pub fn open_samples(file: Vec<u8>) -> (r: Result<(WavFormat, u32, SampleReader), AudioError>)
    ensures
        match wav_header(file@) {
            None => r matches Err(AudioError::OpenError(e)) && e == open_failure(file@),
            Some(header) => if supported(header.format) {
                r matches Ok(opened) && opened.0 == header.format && opened.1 == header.samples
                    && opened.2.pending() == stored_samples(file@, header) && consistent(
                    file@,
                    header,
                )
            } else {
                r matches Err(AudioError::UnsupportedFormat)
            },
        },
{
    let ghost bytes = file@;
    let reader = match open_reader(file) {
        Ok(reader) => reader,
        Err(e) => {
            return Err(AudioError::from(e));
        },
    };
    let ghost header = wav_header(bytes)->0;
    let format = reader_format(&reader);
    let samples: u32 = reader_len(&reader);
    if !is_supported(format) {
        return Err(AudioError::UnsupportedFormat);
    }
    if format.float {
        let (file, at) = reader_data(reader);
        let data_len: u32 = read_word(&file, at - 4);
        let four_bytes_each = samples as u64 * 4 == data_len as u64;
        let opened = SampleReader {
            source: Source::Floats { file, at, left: samples, four_bytes_each },
        };
        proof {
            if samples > 0 {
                assert(header.samples * header.bytes_per_sample == samples * 4
                    ==> header.bytes_per_sample == 4) by (nonlinear_arith)
                    requires
                        header.samples == samples,
                        samples > 0,
                ;
                assert(header.bytes_per_sample == 4 ==> header.samples * header.bytes_per_sample
                    == samples * 4);
            }
            assert(opened.pending() =~= stored_samples(bytes, header));
        }
        Ok((format, samples, opened))
    } else {
        let opened = SampleReader { source: Source::Integers { samples: reader_pcm16(reader) } };
        assert(opened.pending() =~= stored_samples(bytes, header));
        Ok((format, samples, opened))
    }
}

/// The mask that gives each of the first eighteen channels a speaker.
pub open spec fn speaker_mask(channels: u16) -> u32 {
    if channels < 18 {
        (vstd::arithmetic::power2::pow2(channels as nat) - 1) as u32
    } else {
        0x3_ffff
    }
}

/// What comes before the samples in a WAV file of `count` 32-bit floats.
pub open spec fn float_wav_head(channels: u16, sample_rate: u32, count: nat) -> Seq<u8> {
    // "RIFF", the length of what follows, "WAVE"
    seq![0x52u8, 0x49, 0x46, 0x46] + word_bytes((60 + 4 * count) as u32) + seq![
        0x57u8,
        0x41,
        0x56,
        0x45,
    ]
    // "fmt ", its length, the tag of the extensible format
     + seq![0x66u8, 0x6d, 0x74, 0x20] + word_bytes(40) + half_bytes(0xfffe)
    // channels, samples and bytes per second, bytes per frame, bits per sample
     + half_bytes(channels as int) + word_bytes(sample_rate) + word_bytes(
        (4 * channels * sample_rate) as u32,
    ) + half_bytes(4 * channels) + half_bytes(32)
    // the extension: its length, valid bits, speakers, the GUID of IEEE floats
     + half_bytes(22) + half_bytes(32) + word_bytes(speaker_mask(channels)) + seq![
        0x03u8,
        0x00,
        0x00,
        0x00,
        0x00,
        0x00,
        0x10,
        0x00,
        0x80,
        0x00,
        0x00,
        0xaa,
        0x00,
        0x38,
        0x9b,
        0x71,
    ]
    // "data" and its length
     + seq![0x64u8, 0x61, 0x74, 0x61] + word_bytes((4 * count) as u32)
}

/// The WAV file of 32-bit floats that holds `words`.
pub open spec fn float_wav(channels: u16, sample_rate: u32, words: Seq<u32>) -> Seq<u8> {
    float_wav_head(channels, sample_rate, words.len()) + all_word_bytes(words)
}

/// The header of [`float_wav`].
pub open spec fn float_wav_header(channels: u16, sample_rate: u32, count: nat) -> WavHeader {
    WavHeader {
        format: WavFormat { channels, sample_rate, bits_per_sample: 32, float: true },
        bytes_per_sample: 4,
        samples: count as u32,
        data_start: 68,
    }
}

/// A `hound::WavWriter` that writes 32-bit floats into a byte buffer.
#[verifier::external_body]
pub struct WavEncoder<'a> {
    writer: hound::WavWriter<Cursor<&'a mut Vec<u8>>>,
}

/// The channels and the sample rate that an encoder was made with.
pub uninterp spec fn encoder_layout(encoder: WavEncoder<'_>) -> (u16, u32);

/// The samples that an encoder has been given.
pub uninterp spec fn encoder_words(encoder: WavEncoder<'_>) -> Seq<u32>;

/// The error that `hound` gives for completing a file of so many samples in so
/// many channels, of which one lacks its last sample.
pub uninterp spec fn finish_failure(channels: u16, samples: nat) -> hound::Error;

/// What the buffer of an encoder holds once the encoder is gone.
pub uninterp spec fn encoder_file(encoder: WavEncoder<'_>) -> Seq<u8>;

/// Starts a file with `hound::WavWriter::new`, which writes a header for
/// 32-bit floats into the empty buffer; in memory this does not fail. The
/// buffer is the encoder's until that is gone. `hound` multiplies the rate by
/// the size of a frame in 32 bits, and divides by the rate.
#[verifier::external_body]
fn start_encoder<'a>(buffer: &'a mut Vec<u8>, channels: u16, sample_rate: u32) -> (r: Result<
    WavEncoder<'a>,
    hound::Error,
>)
    requires
        old(buffer)@.len() == 0,
        channels > 0,
        sample_rate > 0,
        4 * channels * sample_rate <= u32::MAX,
    ensures
        r is Ok,
        r matches Ok(encoder) ==> encoder_layout(encoder) == (channels, sample_rate),
        r matches Ok(encoder) ==> encoder_words(encoder).len() == 0,
        r matches Ok(encoder) ==> final(buffer)@ == encoder_file(encoder),
{
    let sample_format = hound::SampleFormat::Float;
    let spec = hound::WavSpec { channels, sample_rate, bits_per_sample: 32, sample_format };
    let writer = hound::WavWriter::new(Cursor::new(buffer), spec)?;
    Ok(WavEncoder { writer })
}

/// Gives a sample to `hound::WavWriter::write_sample`, as the integer with the
/// same 32 bits: at 32 bits per sample an integer is written like the float
/// with its bit pattern. `hound` counts the bytes in 32 bits. In memory this
/// does not fail.
#[verifier::external_body]
fn encode_word(encoder: &mut WavEncoder<'_>, word: u32) -> (r: Result<(), hound::Error>)
    requires
        4 * encoder_words(*old(encoder)).len() + 4 <= u32::MAX,
    ensures
        r is Ok,
        encoder_layout(*final(encoder)) == encoder_layout(*old(encoder)),
        encoder_words(*final(encoder)) == encoder_words(*old(encoder)).push(word),
        encoder_file(*final(encoder)) == encoder_file(*old(encoder)),
{
    encoder.writer.write_sample(word as i32)
}

/// Completes the header with `hound::WavWriter::finalize`, which fails if a
/// channel lacks its last sample and does not otherwise fail in memory; the
/// error then depends on nothing but the numbers of channels and samples. On
/// success the buffer holds the file, and, as the number of bytes in a frame is
/// a 16-bit field, `hound::WavReader::new` finds the header again if that
/// number fits.
#[verifier::external_body]
fn finish_encoder(encoder: WavEncoder<'_>) -> (r: Result<(), hound::Error>)
    requires
        encoder_layout(encoder).0 > 0,
        4 * encoder_words(encoder).len() + 60 <= u32::MAX,
    ensures
        r is Ok <==> encoder_words(encoder).len() as int % encoder_layout(encoder).0 as int == 0,
        r matches Err(e) ==> e == finish_failure(
            encoder_layout(encoder).0,
            encoder_words(encoder).len(),
        ),
        r is Ok ==> encoder_file(encoder) == float_wav(
            encoder_layout(encoder).0,
            encoder_layout(encoder).1,
            encoder_words(encoder),
        ),
        r is Ok && 4 * encoder_layout(encoder).0 <= u16::MAX ==> wav_header(encoder_file(encoder))
            == Some(
            float_wav_header(
                encoder_layout(encoder).0,
                encoder_layout(encoder).1,
                encoder_words(encoder).len(),
            ),
        ),
{
    encoder.writer.finalize()
}

/// The WAV file of 32-bit floats that holds the samples.
pub fn encode_floats(words: &Vec<u32>, channels: u16, sample_rate: u32) -> (r: Result<
    Vec<u8>,
    hound::Error,
>)
    requires
        channels > 0,
        sample_rate > 0,
        4 * channels * sample_rate <= u32::MAX,
        4 * words@.len() + 60 <= u32::MAX,
    ensures
        r is Ok <==> words@.len() as int % channels as int == 0,
        r matches Err(e) ==> e == finish_failure(channels, words@.len()),
        r matches Ok(file) ==> file@ == float_wav(channels, sample_rate, words@),
        r matches Ok(file) ==> (4 * channels <= u16::MAX ==> wav_header(file@) == Some(
            float_wav_header(channels, sample_rate, words@.len()),
        )),
{
    let mut file: Vec<u8> = Vec::new();
    let mut encoder = match start_encoder(&mut file, channels, sample_rate) {
        Ok(encoder) => encoder,
        Err(e) => {
            return Err(e);
        },
    };
    let ghost written = encoder_file(encoder);
    let mut i: usize = 0;
    while i < words.len()
        invariant
            i <= words@.len(),
            4 * words@.len() + 60 <= u32::MAX,
            encoder_layout(encoder) == (channels, sample_rate),
            encoder_words(encoder) == words@.take(i as int),
            encoder_file(encoder) == written,
        decreases words@.len() - i,
    {
        match encode_word(&mut encoder, words[i]) {
            Ok(()) => {},
            Err(e) => {
                return Err(e);
            },
        }
        assert(words@.take(i + 1) =~= words@.take(i as int).push(words@[i as int]));
        i = i + 1;
    }
    assert(words@.take(words@.len() as int) =~= words@);
    match finish_encoder(encoder) {
        Ok(()) => Ok(file),
        Err(e) => Err(e),
    }
}

} // verus!
