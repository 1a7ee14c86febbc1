use wavio::audio::{begin_load, segment_range};
use wavio::error::ResampleError;
use wavio::wav::{is_supported, read_word, WavFormat};
use wavio::{
    export, load, stream, stream_lazy, try_stream, AudioData, AudioError, LoadStep, WavFile,
};

fn bits(values: &[f32]) -> Vec<u32> {
    values.iter().map(|v| v.to_bits()).collect()
}

fn at(seconds: f32) -> Option<u32> {
    Some(seconds.to_bits())
}

fn wav(values: &[f32], sample_rate: u32, channels: u16) -> Vec<u8> {
    export(&AudioData::new(bits(values), sample_rate, channels)).unwrap()
}

fn contents(values: &[f32], sample_rate: u32, channels: u16) -> WavFile {
    WavFile::Contents(wav(values, sample_rate, channels))
}

fn done(step: LoadStep) -> AudioData {
    match step {
        LoadStep::Done(audio) => audio,
        other => panic!("not done: {:?}", other),
    }
}

/// A file of integers with a plain 16-byte format chunk.
fn pcm(bits_per_sample: u16, channels: u16, sample_rate: u32, data: &[u8]) -> Vec<u8> {
    let frame = channels * (bits_per_sample / 8);
    let mut file: Vec<u8> = Vec::new();
    file.extend_from_slice(b"RIFF");
    file.extend_from_slice(&(36 + data.len() as u32).to_le_bytes());
    file.extend_from_slice(b"WAVEfmt ");
    file.extend_from_slice(&16u32.to_le_bytes());
    file.extend_from_slice(&1u16.to_le_bytes());
    file.extend_from_slice(&channels.to_le_bytes());
    file.extend_from_slice(&sample_rate.to_le_bytes());
    file.extend_from_slice(&(sample_rate * frame as u32).to_le_bytes());
    file.extend_from_slice(&frame.to_le_bytes());
    file.extend_from_slice(&bits_per_sample.to_le_bytes());
    file.extend_from_slice(b"data");
    file.extend_from_slice(&(data.len() as u32).to_le_bytes());
    file.extend_from_slice(data);
    file
}

fn pcm16(values: &[i16], channels: u16, sample_rate: u32) -> Vec<u8> {
    let data: Vec<u8> = values.iter().flat_map(|v| v.to_le_bytes()).collect();
    pcm(16, channels, sample_rate, &data)
}

#[test]
fn integers_are_divided_by_their_maximum() {
    let values: Vec<i16> = vec![0, 1, -1, 12345, -12345, 32767, -32767, -32768];
    let file = WavFile::Contents(pcm16(&values, 1, 8000));
    let audio = done(load(file, None, None, None, None).unwrap());
    let expected: Vec<u32> =
        values.iter().map(|v| (*v as f32 / i16::MAX as f32).to_bits()).collect();
    assert_eq!(audio.samples, expected);
    assert_eq!(audio.sample_rate, 8000);
    assert_eq!(audio.channels, 1);
}

#[test]
fn integers_keep_their_channels_when_asked() {
    let file = WavFile::Contents(pcm16(&[1, 2, 3, 4], 2, 8000));
    let audio = done(load(file, None, Some(false), None, None).unwrap());
    assert_eq!(audio.samples.len(), 4);
    assert_eq!(audio.channels, 2);
}

#[test]
fn segments_are_cut_by_time() {
    let values: [f32; 10] = [0.0, 0.1, 0.2, 0.3, 0.4, 0.5, 0.6, 0.7, 0.8, 0.9];
    let audio = done(load(contents(&values, 10, 1), None, None, at(0.7), None).unwrap());
    assert_eq!(audio.samples, bits(&[0.7, 0.8, 0.9]));
    let audio = done(load(contents(&values, 10, 1), None, None, at(0.5), at(0.25)).unwrap());
    assert_eq!(audio.samples, bits(&[0.5, 0.6]));
    let audio = done(load(contents(&values, 10, 1), None, None, None, at(0.2)).unwrap());
    assert_eq!(audio.samples, bits(&[0.0, 0.1]));
    let audio = done(load(contents(&values, 10, 1), None, None, at(1.0), None).unwrap());
    assert_eq!(audio.samples, bits(&[]));
    let audio = done(load(contents(&values, 10, 1), None, None, at(-0.0), at(1.0)).unwrap());
    assert_eq!(audio.samples, bits(&values));
    let audio = done(load(contents(&values, 10, 1), None, None, at(f32::NAN), None).unwrap());
    assert_eq!(audio.samples, bits(&values));
    let audio = done(load(contents(&values, 10, 1), None, None, at(0.3), at(-1.0)).unwrap());
    assert_eq!(audio.samples, bits(&[]));
}

#[test]
fn segments_of_integers_are_cut_by_time() {
    let file = WavFile::Contents(pcm16(&[0, 32767, 0, -32767], 1, 4));
    let audio = done(load(file, None, None, at(0.75), at(0.25)).unwrap());
    assert_eq!(audio.samples, bits(&[-1.0]));
}

#[test]
fn segments_beyond_the_samples_are_refused() {
    let values: [f32; 4] = [0.0, 0.1, 0.2, 0.3];
    for (offset, duration) in [
        (at(1.5), None),
        (at(0.5), at(1.0)),
        (None, at(1.25)),
        (at(f32::INFINITY), None),
        (at(1.0), at(0.25)),
    ] {
        let r = load(contents(&values, 4, 1), None, None, offset, duration);
        assert!(matches!(r, Err(AudioError::InvalidRange)));
    }
}

#[test]
fn ranges_follow_the_rate() {
    assert_eq!(segment_range(100, 10, 1, at(2.0), at(5.0)).unwrap(), (20, 70));
    assert_eq!(segment_range(100, 10, 1, at(2.0), None).unwrap(), (20, 100));
    assert_eq!(segment_range(100, 10, 1, None, at(10.0)).unwrap(), (0, 100));
    assert_eq!(segment_range(100, 10, 1, at(10.0), at(0.0)).unwrap(), (100, 100));
    assert!(matches!(segment_range(100, 10, 1, at(10.1), None), Err(AudioError::InvalidRange)));
    assert!(matches!(segment_range(100, 10, 1, at(5.0), at(5.1)), Err(AudioError::InvalidRange)));
    assert!(matches!(segment_range(100, 10, 1, at(-0.1), None), Err(AudioError::InvalidInput(_))));
}

#[test]
fn ranges_are_of_whole_frames() {
    assert_eq!(segment_range(100, 10, 2, at(2.0), at(1.0)).unwrap(), (40, 60));
    assert_eq!(segment_range(100, 10, 2, at(0.15), at(0.15)).unwrap(), (2, 4));
    assert_eq!(segment_range(100, 10, 2, at(5.0), None).unwrap(), (100, 100));
    assert_eq!(segment_range(99, 10, 3, at(1.0), None).unwrap(), (30, 99));
    assert!(matches!(segment_range(100, 10, 2, at(5.1), None), Err(AudioError::InvalidRange)));
    assert!(matches!(segment_range(100, 10, 2, at(4.0), at(1.1)), Err(AudioError::InvalidRange)));
    for seconds in [f32::MAX, f32::INFINITY, 1e18] {
        let r = segment_range(usize::MAX, 10, 3, at(seconds), None);
        assert!(matches!(r, Err(AudioError::InvalidRange)));
        let r = segment_range(usize::MAX, 10, 3, None, at(seconds));
        assert!(matches!(r, Err(AudioError::InvalidRange)));
    }
    assert_eq!(segment_range(100, 10, 0, at(2.0), at(1.0)).unwrap(), (0, 0));
}

#[test]
fn segments_of_several_channels_last_as_long() {
    let values: [f32; 8] = [0.1, 0.2, 0.3, 0.4, 0.5, 0.6, 0.7, 0.8];
    let cut = |offset: Option<u32>, duration: Option<u32>| {
        load(contents(&values, 2, 2), None, Some(false), offset, duration).map(done)
    };
    let audio = cut(None, at(1.0)).unwrap();
    assert_eq!(audio.samples, bits(&[0.1, 0.2, 0.3, 0.4]));
    assert_eq!((audio.sample_rate, audio.channels), (2, 2));
    assert_eq!(cut(at(0.5), at(1.0)).unwrap().samples, bits(&[0.3, 0.4, 0.5, 0.6]));
    assert_eq!(cut(at(1.5), None).unwrap().samples, bits(&[0.7, 0.8]));
    assert_eq!(cut(at(2.0), None).unwrap().samples, bits(&[]));
    assert!(matches!(cut(at(1.5), at(1.0)), Err(AudioError::InvalidRange)));
    assert!(matches!(cut(at(2.5), None), Err(AudioError::InvalidRange)));
    let step = load(contents(&values, 2, 2), None, None, at(0.5), at(0.5)).unwrap();
    assert!(matches!(step, LoadStep::Downmix(todo) if todo.samples == bits(&[0.3, 0.4])));
}

#[test]
fn loads_begin_with_the_samples() {
    let format = WavFormat { channels: 2, sample_rate: 100, bits_per_sample: 16, float: false };
    let step = begin_load(vec![1, 2], format, Some(100), Some(false));
    assert!(matches!(step, LoadStep::Done(audio) if audio.samples == [1, 2] && audio.channels == 2));
    let step = begin_load(vec![1, 2], format, None, None);
    assert!(matches!(step, LoadStep::Downmix(todo) if todo.samples == [1, 2] && todo.channels == 2));
    let step = begin_load(vec![1, 2], format, Some(50), Some(false));
    assert!(matches!(step, LoadStep::Resample(todo) if todo.to_rate == 50 && todo.from_rate == 100));
}

#[test]
fn formats_and_words_are_read() {
    let format = WavFormat { channels: 1, sample_rate: 1, bits_per_sample: 32, float: true };
    assert!(is_supported(format));
    assert!(!is_supported(WavFormat { float: false, ..format }));
    assert!(!is_supported(WavFormat { bits_per_sample: 16, ..format }));
    assert!(is_supported(WavFormat { bits_per_sample: 16, float: false, ..format }));
    assert_eq!(read_word(&vec![9, 0x78, 0x56, 0x34, 0x12], 1), 0x12345678);
}

#[test]
fn negative_offsets_are_refused() {
    for seconds in [-3.0f32, -1e-45, f32::NEG_INFINITY] {
        let r = load(contents(&[0.1, 0.2], 4, 1), None, None, at(seconds), None);
        assert!(matches!(r, Err(AudioError::InvalidInput(what)) if what == "negative offset"));
    }
}

#[test]
fn default_offset_and_mono_are_zero_and_true() {
    let values: [f32; 4] = [0.0, 0.1, 0.2, 0.3];
    let plain = done(load(contents(&values, 4, 1), None, None, None, None).unwrap());
    let given = done(load(contents(&values, 4, 1), Some(4), Some(true), at(0.0), None).unwrap());
    assert_eq!(plain.samples, given.samples);
    assert_eq!(plain.sample_rate, given.sample_rate);
    assert_eq!(plain.channels, given.channels);
}

#[test]
fn channels_are_mixed_then_resampled() {
    let file = contents(&[0.5, 0.25, -0.5, 0.75], 100, 2);
    let todo = match load(file, Some(50), None, None, None).unwrap() {
        LoadStep::Downmix(todo) => todo,
        other => panic!("{:?}", other),
    };
    assert_eq!(todo.samples, bits(&[0.5, 0.25, -0.5, 0.75]));
    assert_eq!(todo.channels, 2);
    let todo = match todo.resume(bits(&[0.375, 0.125])) {
        LoadStep::Resample(todo) => todo,
        other => panic!("{:?}", other),
    };
    assert_eq!(todo.samples, bits(&[0.375, 0.125]));
    assert_eq!((todo.from_rate, todo.to_rate), (100, 50));
    let audio = todo.resume(Ok(bits(&[0.25]))).unwrap();
    assert_eq!(audio.samples, bits(&[0.25]));
    assert_eq!(audio.sample_rate, 50);
    assert_eq!(audio.channels, 1);
}

#[test]
fn mixing_alone_ends_the_load() {
    let file = contents(&[0.5, 0.25], 100, 2);
    let todo = match load(file, Some(100), Some(true), None, None).unwrap() {
        LoadStep::Downmix(todo) => todo,
        other => panic!("{:?}", other),
    };
    let audio = done(todo.resume(bits(&[0.375])));
    assert_eq!(audio.samples, bits(&[0.375]));
    assert_eq!(audio.sample_rate, 100);
    assert_eq!(audio.channels, 1);
}

#[test]
fn resampling_keeps_the_channels() {
    let file = contents(&[0.5, 0.25], 100, 2);
    let todo = match load(file, Some(200), Some(false), None, None).unwrap() {
        LoadStep::Resample(todo) => todo,
        other => panic!("{:?}", other),
    };
    assert_eq!(todo.channels, 2);
    let failed = todo.resume(Err(ResampleError { message: "no".to_string() }));
    assert!(matches!(failed, Err(AudioError::ResampleError(e)) if e.message == "no"));
}

#[test]
fn what_is_no_wav_file_is_refused() {
    for bytes in [Vec::new(), b"RIFF".to_vec(), b"not a wave file at all".to_vec()] {
        let r = load(WavFile::Contents(bytes.clone()), None, None, None, None);
        assert!(matches!(r, Err(AudioError::OpenError(_))));
        for hop in [None, Some(0), Some(1)] {
            for frame in [0, 1, usize::MAX] {
                let r = stream(WavFile::Contents(bytes.clone()), 1, frame, hop);
                assert!(matches!(r, Err(AudioError::OpenError(_))));
                let r = try_stream(WavFile::Contents(bytes.clone()), 1, frame, hop);
                assert!(matches!(r, Some(Err(AudioError::OpenError(_)))));
                let r = stream_lazy(WavFile::Contents(bytes.clone()), 1, frame, hop);
                assert!(matches!(r, Err(AudioError::OpenError(_))));
            }
        }
    }
}

#[test]
fn files_that_do_not_open_fail_as_the_reader_does() {
    let mut cut = wav(&[0.1, 0.2], 4, 1);
    cut.truncate(30);
    for bytes in [Vec::new(), b"not a wave file at all".to_vec(), b"RIFF....WAVX".to_vec(), cut] {
        let error = hound::WavReader::new(std::io::Cursor::new(bytes.clone())).err().unwrap();
        let expected = format!("{:?}", error);
        match load(WavFile::Contents(bytes.clone()), None, None, None, None) {
            Err(AudioError::OpenError(e)) => assert_eq!(format!("{:?}", e), expected),
            _ => panic!("opened"),
        }
        match stream(WavFile::Contents(bytes.clone()), 1, 1, None) {
            Err(AudioError::OpenError(e)) => assert_eq!(format!("{:?}", e), expected),
            _ => panic!("opened"),
        }
        match stream_lazy(WavFile::Contents(bytes), 1, 1, None) {
            Err(AudioError::OpenError(e)) => assert_eq!(format!("{:?}", e), expected),
            _ => panic!("opened"),
        }
    }
}

#[test]
fn other_formats_are_refused() {
    for bits_per_sample in [8u16, 24, 32] {
        let file = pcm(bits_per_sample, 1, 8000, &[0; 12]);
        let r = load(WavFile::Contents(file.clone()), None, None, None, None);
        assert!(matches!(r, Err(AudioError::UnsupportedFormat)));
        let r = stream(WavFile::Contents(file.clone()), 1, 1, None);
        assert!(matches!(r, Err(AudioError::UnsupportedFormat)));
        let r = try_stream(WavFile::Contents(file.clone()), 1, 1, Some(0));
        assert!(matches!(r, Some(Err(AudioError::UnsupportedFormat))));
        let r = stream_lazy(WavFile::Contents(file), 1, 1, Some(0));
        assert!(matches!(r, Err(AudioError::UnsupportedFormat)));
    }
}

#[test]
fn unreadable_files_are_io_errors() {
    let cause = std::io::Error::new(std::io::ErrorKind::PermissionDenied, "no");
    let r = load(WavFile::Unreadable(cause), None, None, None, None);
    match r {
        Err(AudioError::IoError(e)) => {
            assert_eq!(e.kind(), std::io::ErrorKind::PermissionDenied)
        }
        _ => panic!("no error"),
    }
}

#[test]
fn cut_off_floats_fail_where_they_are_needed() {
    let mut file = wav(&[0.1, 0.2, 0.3, 0.4], 4, 1);
    file.truncate(file.len() - 6);
    let r = load(WavFile::Contents(file.clone()), None, None, None, None);
    assert!(matches!(r, Err(AudioError::HoundError(_))));
    let r = stream(WavFile::Contents(file.clone()), 4, 1, None);
    assert!(matches!(r, Err(AudioError::HoundError(_))));
    let r = try_stream(WavFile::Contents(file.clone()), 4, usize::MAX, Some(0));
    assert!(matches!(r, Some(Err(AudioError::HoundError(_)))));
    let audio = done(load(WavFile::Contents(file), None, None, at(0.25), at(0.25)).unwrap());
    assert_eq!(audio.samples, bits(&[0.2]));
}

#[test]
fn cut_off_integers_fail_where_they_are_needed() {
    let mut file = pcm16(&[32767, -32767, 32767], 1, 3);
    file.truncate(file.len() - 1);
    let r = load(WavFile::Contents(file.clone()), None, None, None, None);
    assert!(matches!(r, Err(AudioError::HoundError(_))));
    let audio = done(load(WavFile::Contents(file), None, None, None, at(0.67)).unwrap());
    assert_eq!(audio.samples, bits(&[1.0, -1.0]));
}

#[test]
fn floats_in_wider_containers_cannot_be_read() {
    let mut file = wav(&[0.1, 0.2, 0.3, 0.4], 4, 1);
    // Eight bytes to a sample, two samples: only the size of a frame, the bytes
    // per second and the bits of a container change.
    file[28..32].copy_from_slice(&32u32.to_le_bytes());
    file[32..34].copy_from_slice(&8u16.to_le_bytes());
    file[34..36].copy_from_slice(&64u16.to_le_bytes());
    let r = load(WavFile::Contents(file.clone()), None, None, None, None);
    assert!(matches!(r, Err(AudioError::HoundError(_))));
    let mut opened = stream_lazy(WavFile::Contents(file), 4, 2, None).unwrap();
    assert_eq!(opened.next_blocks(), Some(vec![vec![0, 0]]));
    assert_eq!(opened.next_blocks(), None);
}

#[test]
fn errors_convert_as_they_are_named() {
    let e = AudioError::from(std::io::Error::new(std::io::ErrorKind::Other, "x"));
    assert!(matches!(e, AudioError::IoError(_)));
    let e = AudioError::from(hound::Error::Unsupported);
    assert!(matches!(e, AudioError::OpenError(hound::Error::Unsupported)));
    let e = AudioError::from(ndarray::ShapeError::from_kind(ndarray::ErrorKind::Overflow));
    assert!(matches!(e, AudioError::ShapeError(_)));
    let e = AudioError::from(ResampleError { message: "m".to_string() });
    assert!(matches!(e, AudioError::ResampleError(_)));
}
