//! WAV files as they were found and read.
use crate::error::AudioError;
use crate::wav;
use crate::wav::{SampleReader, WavFormat};
use vstd::prelude::*;

verus! {

/// What came of looking for a file and reading it.
#[derive(Debug)]
pub enum WavFile {
    /// There is no file at this path.
    Missing(String),
    /// There is one, which could not be read.
    Unreadable(std::io::Error),
    /// The bytes of the file.
    Contents(Vec<u8>),
}

/// Opens what was read of a file.
pub fn open_file(file: WavFile) -> (r: Result<(WavFormat, u32, SampleReader), AudioError>)
    ensures
        match file {
            WavFile::Missing(path) => r matches Err(AudioError::FileNotFound(p)) && p == path,
            WavFile::Unreadable(cause) => r matches Err(AudioError::IoError(e)) && e == cause,
            WavFile::Contents(bytes) => match wav::wav_header(bytes@) {
                None => r matches Err(AudioError::OpenError(e)) && e == wav::open_failure(bytes@),
                Some(header) => if wav::supported(header.format) {
                    r matches Ok(opened) && opened.0 == header.format && opened.1
                        == header.samples && opened.2.pending() == wav::stored_samples(
                        bytes@,
                        header,
                    ) && wav::consistent(bytes@, header)
                } else {
                    r matches Err(AudioError::UnsupportedFormat)
                },
            },
        },
{
    match file {
        WavFile::Missing(path) => Err(AudioError::FileNotFound(path)),
        WavFile::Unreadable(cause) => Err(AudioError::from(cause)),
        WavFile::Contents(bytes) => wav::open_samples(bytes),
    }
}

/// Reads samples `start` to `end`; fails if one of these cannot be read.
pub fn read_range(reader: SampleReader, start: usize, end: usize) -> (r: Result<Vec<u32>, AudioError>)
    requires
        start <= end <= reader.pending().len(),
    ensures
        ({
            let range = reader.pending().subrange(start as int, end as int);
            if wav::all_readable(range) {
                r matches Ok(samples) && samples@ == wav::values(range)
            } else {
                r matches Err(AudioError::HoundError(_))
            }
        }),
{
    let ghost all = reader.pending();
    let ghost range = all.subrange(start as int, end as int);
    let mut rest = reader;
    let mut skipped: usize = 0;
    while skipped < start
        invariant
            skipped <= start <= end <= all.len(),
            rest.pending() == all.skip(skipped as int),
        decreases start - skipped,
    {
        let _ = rest.next_sample();
        skipped = skipped + 1;
        assert(all.skip(skipped - 1).skip(1) =~= all.skip(skipped as int));
    }
    let mut samples: Vec<u32> = Vec::new();
    while samples.len() < end - start
        invariant
            start <= end <= all.len(),
            range == all.subrange(start as int, end as int),
            samples@.len() <= end - start,
            all == reader.pending(),
            rest.pending() == all.skip(start + samples@.len()),
            forall|i: int| 0 <= i < samples@.len() ==> range[i] == Some(#[trigger] samples@[i]),
        decreases end - start - samples@.len(),
    {
        let ghost i = samples@.len() as int;
        assert(all.skip(start + i)[0] == range[i]);
        match rest.next_sample() {
            Some(Ok(sample)) => {
                samples.push(sample);
                assert(all.skip(start + i).skip(1) =~= all.skip(start + i + 1));
            },
            Some(Err(e)) => {
                return Err(AudioError::HoundError(e));
            },
            None => {
                assert(false);
            },
        }
    }
    assert(samples@ =~= wav::values(range));
    assert(wav::all_readable(range)) by {
        assert forall|i: int| 0 <= i < range.len() implies (#[trigger] range[i]) is Some by {
            assert(range[i] == Some(samples@[i]));
        }
    }
    Ok(samples)
}

/// Reads all samples of a file; fails if one of these cannot be read.
pub fn read_all(file: WavFile) -> (r: Result<Vec<u32>, AudioError>)
    ensures
        match file {
            WavFile::Missing(path) => r matches Err(AudioError::FileNotFound(p)) && p == path,
            WavFile::Unreadable(cause) => r matches Err(AudioError::IoError(e)) && e == cause,
            WavFile::Contents(bytes) => match wav::wav_header(bytes@) {
                None => r matches Err(AudioError::OpenError(e)) && e == wav::open_failure(bytes@),
                Some(header) => if !wav::supported(header.format) {
                    r matches Err(AudioError::UnsupportedFormat)
                } else if wav::all_readable(wav::stored_samples(bytes@, header)) {
                    r matches Ok(samples) && samples@ == wav::values(
                        wav::stored_samples(bytes@, header),
                    )
                } else {
                    r matches Err(AudioError::HoundError(_))
                },
            },
        },
{
    let (_, total, reader) = match open_file(file) {
        Ok(opened) => opened,
        Err(e) => {
            return Err(e);
        },
    };
    let ghost stored = reader.pending();
    assert(stored.subrange(0, stored.len() as int) =~= stored);
    read_range(reader, 0, total as usize)
}

} // verus!
