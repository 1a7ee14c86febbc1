//! WAV files in and out of memory: loading, exporting, and streaming blocks of
//! samples.
//!
//! Samples are IEEE 754 binary32 numbers, carried as their `u32` bit patterns.
//! Files are handed over as what was read of them; mixing channels and
//! resampling are handed to the caller.
pub mod audio;
pub mod binary32;
pub mod binary32_laws;
pub mod blocks;
pub mod error;
pub mod export_laws;
pub mod file;
pub mod laws;
pub mod load_laws;
pub mod stream;
pub mod stream_laws;
pub mod wav;

pub use audio::{export, load, AudioData, Downmix, LoadStep, Resample};
pub use error::{AudioError, ResampleError};
pub use file::WavFile;
pub use stream::{stream, stream_lazy, try_stream, LazyStream};
