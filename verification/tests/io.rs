use wavio::{export, load, stream, stream_lazy, AudioData, AudioError, LoadStep, WavFile};

fn bits(values: &[f32]) -> Vec<u32> {
    values.iter().map(|v| v.to_bits()).collect()
}

fn create_test_wav() -> AudioData {
    AudioData::new(bits(&[0.0, 0.1, 0.2, 0.3, 0.4, 0.5]), 44100, 1)
}

fn exported(audio: &AudioData) -> WavFile {
    WavFile::Contents(export(audio).unwrap())
}

fn done(step: LoadStep) -> AudioData {
    match step {
        LoadStep::Done(audio) => audio,
        other => panic!("not done: {:?}", other),
    }
}

#[test]
fn test_load() {
    let audio = create_test_wav();
    let loaded = done(load(exported(&audio), None, Some(true), None, None).unwrap());
    assert_eq!(loaded.samples, audio.samples);
}

#[test]
fn test_load_segment() {
    let audio = create_test_wav();
    let offset: f32 = 0.00004535147;
    let duration: f32 = 0.00004535148;
    let step = load(
        exported(&audio),
        None,
        Some(true),
        Some(offset.to_bits()),
        Some(duration.to_bits()),
    )
    .unwrap();
    let loaded = done(step);
    assert_eq!(loaded.samples, bits(&[0.1, 0.2]));
}

#[test]
fn test_export() {
    let audio = create_test_wav();
    let loaded = done(load(exported(&audio), None, Some(true), None, None).unwrap());
    assert_eq!(loaded.samples, audio.samples);
}

#[test]
fn test_stream() {
    let audio = create_test_wav();
    let blocks = stream(exported(&audio), 3, 2, Some(2)).unwrap();
    assert_eq!(blocks, vec![bits(&[0.0, 0.1]), bits(&[0.2, 0.3]), bits(&[0.4, 0.5])]);
}

#[test]
fn test_stream_lazy() {
    let audio = create_test_wav();
    let mut opened = stream_lazy(exported(&audio), 3, 2, Some(2)).unwrap();
    let mut blocks: Vec<Vec<u32>> = Vec::new();
    while let Some(batch) = opened.next_blocks() {
        blocks.extend(batch);
    }
    assert_eq!(blocks, vec![bits(&[0.0, 0.1]), bits(&[0.2, 0.3]), bits(&[0.4, 0.5])]);
}

#[test]
fn test_load_file_not_found() {
    let result = load(WavFile::Missing("test.wav".to_string()), None, Some(true), None, None);
    assert!(result.is_err());
    assert!(matches!(result.unwrap_err(), AudioError::FileNotFound(_)));
}

#[test]
fn test_stream_file_not_found() {
    let result = stream(WavFile::Missing("test.wav".to_string()), 3, 2, Some(2));
    assert!(result.is_err());
    if let Err(e) = result {
        assert!(matches!(e, AudioError::FileNotFound(_)));
    }
}

#[test]
fn test_stream_lazy_file_not_found() {
    let result = stream_lazy(WavFile::Missing("test.wav".to_string()), 3, 2, Some(2));
    assert!(result.is_err());
    if let Err(e) = result {
        assert!(matches!(e, AudioError::FileNotFound(path) if path == "test.wav"));
    }
}

#[test]
fn audio_data_holds_its_parts() {
    let audio = AudioData::new(bits(&[0.5, -0.3, 0.8]), 44100, 1);
    assert_eq!(audio.samples.len(), 3);
    assert_eq!(audio.samples, bits(&[0.5, -0.3, 0.8]));
    assert_eq!(audio.sample_rate, 44100);
    assert_eq!(audio.channels, 1);
}
