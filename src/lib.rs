//! A WAV (RIFF/WAVE) codec over byte buffers: chunk scanning, format
//! resolution, sample words, integer sample conversion, file assembly and
//! header-only metadata.
pub mod bytes;
pub mod codec;
pub mod convert;
pub mod format;
pub mod laws;

pub use codec::{decode, encode, Signal};
pub use convert::{convert_int, int_to_word, word_to_int};
pub use format::{parse_header, scan_chunks, wav_spec, ChunkLocs, SampleType, WavError, WavHeader, WavSpec};
