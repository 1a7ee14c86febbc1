//! What exporting audio does, to the bytes of the file.
use crate::audio;
use crate::audio::{AudioData, LoadStep};
use crate::binary32;
use crate::binary32_laws;
use crate::error::AudioError;
use crate::file::WavFile;
use crate::laws;
use crate::load_laws;
use crate::wav;
use vstd::prelude::*;

verus! {

/// A sample brought into `[-1.0, 1.0]`, by its pattern: those beyond `1.0` in
/// size, up to infinity, become `1.0` or `-1.0`.
pub open spec fn brought_into_range(bits: u32) -> u32 {
    let size = bits as nat % 0x8000_0000;
    if size <= 0x3f80_0000 || size > 0x7f80_0000 {
        bits
    } else if bits >= 0x8000_0000 {
        0xbf80_0000
    } else {
        0x3f80_0000
    }
}

/// The two bytes at `at`, the least significant first.
pub open spec fn half_at(bytes: Seq<u8>, at: int) -> int {
    bytes[at] + 256 * bytes[at + 1]
}

proof fn lemma_word_bytes(word: u32)
    ensures
        wav::word_bytes(word).len() == 4,
        load_laws::four_bytes(wav::word_bytes(word), 0) == word,
{
}

proof fn lemma_half_bytes(half: int)
    requires
        half >= 0,
    ensures
        wav::half_bytes(half).len() == 2,
        half_at(wav::half_bytes(half), 0) == half % 0x1_0000,
{
}

/// Exporting gives a file unless a channel lacks its last sample. The file has
/// the rate and the number of channels in its header, the size of what follows,
/// and then each sample in four bytes, brought into `[-1.0, 1.0]`.
pub proof fn law_export_writes_every_sample(
    audio_data: AudioData,
    r: Result<Vec<u8>, AudioError>,
    i: int,
)
    requires
        audio::exported(audio_data, r),
        audio_data.channels > 0,
        4 * audio_data.channels * audio_data.sample_rate <= u32::MAX,
        4 * audio_data.samples@.len() + 60 <= u32::MAX,
        0 <= i < audio_data.samples@.len(),
    ensures
        r is Ok <==> audio_data.samples@.len() as int % audio_data.channels as int == 0,
        r is Err ==> (r matches Err(AudioError::HoundError(e)) && e == wav::finish_failure(
            audio_data.channels,
            audio_data.samples@.len(),
        )),
        r matches Ok(file) ==> {
            let n = audio_data.samples@.len();
            &&& file@.len() == 68 + 4 * n
            &&& load_laws::four_bytes(file@, 4) == file@.len() - 8
            &&& half_at(file@, 22) == audio_data.channels
            &&& load_laws::four_bytes(file@, 24) == audio_data.sample_rate
            &&& load_laws::four_bytes(file@, 28) == 4 * audio_data.channels
                * audio_data.sample_rate
            &&& half_at(file@, 32) == 4 * audio_data.channels as int % 0x1_0000
            &&& half_at(file@, 34) == 32
            &&& load_laws::four_bytes(file@, 64) == 4 * n
            &&& load_laws::four_bytes(file@, 68 + 4 * i) == brought_into_range(
                audio_data.samples@[i],
            )
        },
{
    if let Ok(file) = r {
        let channels = audio_data.channels;
        let rate = audio_data.sample_rate;
        let words = binary32::all_clamped(audio_data.samples@);
        let n = words.len();
        let head = wav::float_wav_head(channels, rate, n);
        let data = wav::all_word_bytes(words);
        assert(file@ == head + data);
        assert(head.len() == 68);
        binary32_laws::law_clamp_by_pattern(audio_data.samples@, i);
        load_laws::lemma_word_bytes_stand_in_order(words, i);
        assert(file@[68 + 4 * i] == data[4 * i]);
        assert(file@[68 + 4 * i + 1] == data[4 * i + 1]);
        assert(file@[68 + 4 * i + 2] == data[4 * i + 2]);
        assert(file@[68 + 4 * i + 3] == data[4 * i + 3]);
        lemma_head_fields(channels, rate, n);
        assert forall|at: int| 0 <= at < 68 implies file@[at] == #[trigger] head[at] by {}
        assert(load_laws::four_bytes(file@, 4) == load_laws::four_bytes(head, 4));
        assert(half_at(file@, 22) == half_at(head, 22));
        assert(load_laws::four_bytes(file@, 24) == load_laws::four_bytes(head, 24));
        assert(load_laws::four_bytes(file@, 28) == load_laws::four_bytes(head, 28));
        assert(half_at(file@, 32) == half_at(head, 32));
        assert(half_at(file@, 34) == half_at(head, 34));
        assert(load_laws::four_bytes(file@, 64) == load_laws::four_bytes(head, 64));
    }
}

/// What stands in the head of a file of floats: the fields at their places, and
/// the marks of the format.
pub proof fn lemma_head_fields(channels: u16, rate: u32, n: nat)
    requires
        4 * channels * rate <= u32::MAX,
        4 * n + 60 <= u32::MAX,
    ensures
        ({
            let head = wav::float_wav_head(channels, rate, n);
            &&& head.len() == 68
            &&& load_laws::four_bytes(head, 4) == 60 + 4 * n
            &&& half_at(head, 22) == channels
            &&& load_laws::four_bytes(head, 24) == rate
            &&& load_laws::four_bytes(head, 28) == 4 * channels * rate
            &&& half_at(head, 32) == 4 * channels as int % 0x1_0000
            &&& half_at(head, 34) == 32
            &&& load_laws::four_bytes(head, 64) == 4 * n
        }),
{
    let head = wav::float_wav_head(channels, rate, n);
    let size = wav::word_bytes((60 + 4 * n) as u32);
    lemma_word_bytes((60 + 4 * n) as u32);
    assert(head.subrange(4, 8) =~= size);
    assert(load_laws::four_bytes(head, 4) == load_laws::four_bytes(head.subrange(4, 8), 0));
    lemma_half_bytes(channels as int);
    assert(head.subrange(22, 24) =~= wav::half_bytes(channels as int));
    assert(half_at(head, 22) == half_at(head.subrange(22, 24), 0));
    lemma_word_bytes(rate);
    assert(head.subrange(24, 28) =~= wav::word_bytes(rate));
    assert(load_laws::four_bytes(head, 24) == load_laws::four_bytes(head.subrange(24, 28), 0));
    let per_second = (4 * channels * rate) as u32;
    lemma_word_bytes(per_second);
    assert(4 * channels * rate >= 0) by (nonlinear_arith);
    assert(head.subrange(28, 32) =~= wav::word_bytes(per_second));
    assert(load_laws::four_bytes(head, 28) == load_laws::four_bytes(head.subrange(28, 32), 0));
    lemma_half_bytes(4 * channels);
    assert(head.subrange(32, 34) =~= wav::half_bytes(4 * channels));
    assert(half_at(head, 32) == half_at(head.subrange(32, 34), 0));
    lemma_half_bytes(32);
    assert(head.subrange(34, 36) =~= wav::half_bytes(32));
    assert(half_at(head, 34) == half_at(head.subrange(34, 36), 0));
    lemma_word_bytes((4 * n) as u32);
    assert(head.subrange(64, 68) =~= wav::word_bytes((4 * n) as u32));
    assert(load_laws::four_bytes(head, 64) == load_laws::four_bytes(head.subrange(64, 68), 0));
}

/// Loading undoes exporting: it succeeds, and the step that it gives holds all
/// samples, each brought into `[-1.0, 1.0]`, with the rate and the number of
/// channels that were exported.
pub proof fn law_load_undoes_export(
    audio_data: AudioData,
    file: Vec<u8>,
    exported: Result<Vec<u8>, AudioError>,
    loaded: Result<LoadStep, AudioError>,
    i: int,
)
    requires
        exported == Ok::<Vec<u8>, AudioError>(file),
        audio::exported(audio_data, exported),
        4 * audio_data.channels <= u16::MAX,
        4 * audio_data.samples@.len() + 60 <= u32::MAX,
        audio::loaded(WavFile::Contents(file), None, Some(false), None, None, loaded),
    ensures
        loaded matches Ok(LoadStep::Done(audio)) && {
            &&& audio.sample_rate == audio_data.sample_rate
            &&& audio.channels == audio_data.channels
            &&& audio.samples@.len() == audio_data.samples@.len()
            &&& 0 <= i < audio.samples@.len() ==> audio.samples@[i] == brought_into_range(
                audio_data.samples@[i],
            )
        },
{
    laws::law_export_is_read_back(
        audio_data.samples@,
        audio_data.sample_rate,
        audio_data.channels,
        file@,
    );
    if 0 <= i < audio_data.samples@.len() {
        binary32_laws::law_clamp_by_pattern(audio_data.samples@, i);
    }
}

} // verus!
