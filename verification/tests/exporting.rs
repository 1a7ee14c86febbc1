use wavio::{export, load, AudioData, AudioError, LoadStep, WavFile};

fn bits(values: &[f32]) -> Vec<u32> {
    values.iter().map(|v| v.to_bits()).collect()
}

#[test]
fn exported_bytes_are_an_extensible_float_file() {
    let file = export(&AudioData::new(bits(&[0.5, -0.25]), 48000, 2)).unwrap();
    let mut expected: Vec<u8> = Vec::new();
    expected.extend_from_slice(b"RIFF");
    expected.extend_from_slice(&68u32.to_le_bytes());
    expected.extend_from_slice(b"WAVEfmt ");
    expected.extend_from_slice(&40u32.to_le_bytes());
    expected.extend_from_slice(&[0xfe, 0xff, 2, 0]);
    expected.extend_from_slice(&48000u32.to_le_bytes());
    expected.extend_from_slice(&384000u32.to_le_bytes());
    expected.extend_from_slice(&[8, 0, 32, 0, 22, 0, 32, 0, 3, 0, 0, 0]);
    expected.extend_from_slice(&[3, 0, 0, 0, 0, 0, 0x10, 0]);
    expected.extend_from_slice(&[0x80, 0, 0, 0xaa, 0, 0x38, 0x9b, 0x71]);
    expected.extend_from_slice(b"data");
    expected.extend_from_slice(&8u32.to_le_bytes());
    expected.extend_from_slice(&0.5f32.to_le_bytes());
    expected.extend_from_slice(&(-0.25f32).to_le_bytes());
    assert_eq!(file, expected);
}

#[test]
fn many_channels_share_eighteen_speakers() {
    let file = export(&AudioData::new(vec![0; 20], 1, 20)).unwrap();
    assert_eq!(file[40..44], 0x3ffffu32.to_le_bytes());
    assert_eq!(file.len(), 68 + 80);
}

#[test]
fn exported_files_are_what_hound_reads() {
    let file = export(&AudioData::new(bits(&[0.5, -0.25, 0.125]), 22050, 1)).unwrap();
    let mut reader = hound::WavReader::new(std::io::Cursor::new(file)).unwrap();
    assert_eq!(reader.spec().sample_rate, 22050);
    assert_eq!(reader.spec().channels, 1);
    assert_eq!(reader.spec().bits_per_sample, 32);
    assert!(reader.spec().sample_format == hound::SampleFormat::Float);
    let samples: Vec<f32> = reader.samples::<f32>().map(|s| s.unwrap()).collect();
    assert_eq!(samples, vec![0.5, -0.25, 0.125]);
}

#[test]
fn samples_are_clamped() {
    let audio = AudioData::new(
        bits(&[2.0, -2.0, 1.0, -1.0, 0.5, f32::INFINITY, f32::NEG_INFINITY, 1.0000001]),
        8000,
        1,
    );
    let file = WavFile::Contents(export(&audio).unwrap());
    match load(file, None, None, None, None).unwrap() {
        LoadStep::Done(loaded) => {
            assert_eq!(loaded.samples, bits(&[1.0, -1.0, 1.0, -1.0, 0.5, 1.0, -1.0, 1.0]));
            assert_eq!(loaded.sample_rate, 8000);
            assert_eq!(loaded.channels, 1);
        }
        other => panic!("{:?}", other),
    }
}

#[test]
fn unfinished_frames_are_refused() {
    let audio = AudioData::new(bits(&[0.1, 0.2, 0.3]), 8000, 2);
    assert!(matches!(
        export(&audio),
        Err(AudioError::HoundError(hound::Error::UnfinishedSample))
    ));
}

#[test]
fn empty_audio_is_a_bare_header() {
    let file = export(&AudioData::new(Vec::new(), 8000, 1)).unwrap();
    assert_eq!(file.len(), 68);
    let r = load(WavFile::Contents(file), None, None, None, None).unwrap();
    assert!(matches!(r, LoadStep::Done(audio) if audio.samples.is_empty()));
}

#[test]
fn several_channels_are_read_back() {
    let audio = AudioData::new(bits(&[0.1, 0.2, 0.3, 0.4, 0.5, 0.6]), 8000, 3);
    let file = WavFile::Contents(export(&audio).unwrap());
    match load(file, None, Some(false), None, None).unwrap() {
        LoadStep::Done(loaded) => {
            assert_eq!(loaded.samples, audio.samples);
            assert_eq!(loaded.channels, 3);
        }
        other => panic!("{:?}", other),
    }
}

#[test]
fn frames_wider_than_their_field_are_not_read_back() {
    let file = export(&AudioData::new(vec![0; 16384], 1, 16384)).unwrap();
    assert_eq!(file[32..34], [0, 0]);
    let r = load(WavFile::Contents(file), None, None, None, None);
    assert!(matches!(r, Err(AudioError::OpenError(_))));
    let audio = AudioData::new(vec![0; 16383], 1, 16383);
    let r = load(WavFile::Contents(export(&audio).unwrap()), None, Some(false), None, None);
    assert!(matches!(r, Ok(LoadStep::Done(loaded)) if loaded.samples == audio.samples));
}

#[test]
fn clones_are_the_same_audio() {
    let audio = AudioData::new(bits(&[0.5, 0.25]), 8000, 2);
    let copy = audio.clone();
    assert_eq!(copy.samples, audio.samples);
    assert_eq!((copy.sample_rate, copy.channels), (8000, 2));
}

#[test]
fn patterns_of_no_number_are_kept() {
    let audio = AudioData::new(vec![0x7fc0_1234, 0xffc0_0001], 8000, 1);
    let file = WavFile::Contents(export(&audio).unwrap());
    match load(file, None, None, None, None).unwrap() {
        LoadStep::Done(loaded) => assert_eq!(loaded.samples, audio.samples),
        other => panic!("{:?}", other),
    }
}
