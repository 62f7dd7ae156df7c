//! Audio decoding, waveform summaries and speech-transcription orchestration
//! for a subtitle editor, with the subtitle format itself.

pub mod audio;
pub mod error;
pub mod models;
pub mod srt;
pub mod text;
pub mod timestamp;
pub mod transcribe;
pub mod waveform;
