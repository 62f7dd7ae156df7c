use vstd::prelude::*;

verus! {

/// Everything that can end an audio or transcription job early.
#[derive(Debug, Clone)]
pub enum PipelineError {
    /// A file could not be opened, read or written.
    Io(String),
    /// No supported container format matched the file.
    Probe(String),
    /// Every track of the file is a non-audio track.
    NoAudioTrack,
    /// The selected track does not state its sample rate.
    NoSampleRate,
    /// No decoder could be made for the selected track.
    Decoder(String),
    /// Decoding produced no samples at all.
    NoSamples,
    /// The requested model is not on disk.
    ModelNotDownloaded(String),
    /// The model to delete is not on disk.
    ModelNotFound(String),
    /// The model could not be loaded into an inference context.
    ModelLoad(String),
    /// Inference failed.
    Inference(String),
    /// A segment's time does not fit a timestamp.
    SegmentTime,
    /// The model download failed.
    Download(String),
    /// No home directory is known, so there is no model directory.
    NoHomeDir,
    /// The job was cancelled on request.
    Cancelled,
}

/// The fixed head of an error's message and the detail that follows it.
pub open spec fn message_parts(e: PipelineError) -> (Seq<char>, Seq<char>) {
    match e {
        PipelineError::Io(d) => ("I/O error: "@, d@),
        PipelineError::Probe(d) => ("Failed to probe audio file: "@, d@),
        PipelineError::NoAudioTrack => ("No audio track found"@, Seq::empty()),
        PipelineError::NoSampleRate => ("No sample rate found"@, Seq::empty()),
        PipelineError::Decoder(d) => ("Failed to create decoder: "@, d@),
        PipelineError::NoSamples => ("No audio samples extracted"@, Seq::empty()),
        PipelineError::ModelNotDownloaded(d) => (
            "Model is not downloaded, download it first: "@,
            d@,
        ),
        PipelineError::ModelNotFound(d) => ("Model is not downloaded: "@, d@),
        PipelineError::ModelLoad(d) => ("Failed to load Whisper model: "@, d@),
        PipelineError::Inference(d) => ("Failed to transcribe: "@, d@),
        PipelineError::SegmentTime => ("Segment time out of range"@, Seq::empty()),
        PipelineError::Download(d) => ("Failed to download model: "@, d@),
        PipelineError::NoHomeDir => ("Failed to get home directory"@, Seq::empty()),
        PipelineError::Cancelled => ("Transcription cancelled"@, Seq::empty()),
    }
}

impl PipelineError {
    /// A human-readable description of the error.
    pub fn message(&self) -> (r: String)
        ensures
            r@ == message_parts(*self).0 + message_parts(*self).1,
    {
        let (head, detail): (&str, Option<&String>) = match self {
            PipelineError::Io(d) => ("I/O error: ", Some(d)),
            PipelineError::Probe(d) => ("Failed to probe audio file: ", Some(d)),
            PipelineError::NoAudioTrack => ("No audio track found", None),
            PipelineError::NoSampleRate => ("No sample rate found", None),
            PipelineError::Decoder(d) => ("Failed to create decoder: ", Some(d)),
            PipelineError::NoSamples => ("No audio samples extracted", None),
            PipelineError::ModelNotDownloaded(d) => ("Model is not downloaded, download it first: ", Some(d)),
            PipelineError::ModelNotFound(d) => ("Model is not downloaded: ", Some(d)),
            PipelineError::ModelLoad(d) => ("Failed to load Whisper model: ", Some(d)),
            PipelineError::Inference(d) => ("Failed to transcribe: ", Some(d)),
            PipelineError::SegmentTime => ("Segment time out of range", None),
            PipelineError::Download(d) => ("Failed to download model: ", Some(d)),
            PipelineError::NoHomeDir => ("Failed to get home directory", None),
            PipelineError::Cancelled => ("Transcription cancelled", None),
        };
        let mut out = String::from_str(head);
        match detail {
            Some(d) => out.append(d.as_str()),
            None => {
                assert(out@ + Seq::<char>::empty() =~= out@);
            },
        }
        out
    }
}

} // verus!
