use vstd::prelude::*;
use std::sync::Arc;
use std::sync::atomic::{AtomicBool, Ordering};

use crate::error::PipelineError;
use crate::text::{trim_text, trimmed};
use crate::timestamp::{decimal, from_ms_spec, push_decimal, total_ms, SubtitleEntry, TimeStamp};

verus! {

/// A cancellation signal for one transcription run, shared between the run
/// and whoever may cancel it.
#[derive(Debug, Clone)]
pub struct CancellationToken {
    flag: Arc<AtomicBool>,
}

impl CancellationToken {
    pub fn new() -> (r: CancellationToken) {
        CancellationToken { flag: Arc::new(AtomicBool::new(false)) }
    }
}

/// Asks the run that holds `token` to stop at its next checkpoint.
pub fn cancel_transcription(token: &CancellationToken) {
    token.flag.store(true, Ordering::SeqCst);
}

/// Clears the signal at the start of a run.
pub fn reset_cancellation(token: &CancellationToken) {
    token.flag.store(false, Ordering::SeqCst);
}

/// Whether cancellation has been asked for. The answer may change at any
/// moment, since another thread may cancel.
pub fn is_cancelled(token: &CancellationToken) -> bool {
    token.flag.load(Ordering::SeqCst)
}

/// One segment of inference output: times in centiseconds, and its text.
#[derive(Debug, Clone)]
pub struct Segment {
    pub start_cs: i64,
    pub end_cs: i64,
    pub text: String,
}

/// Centiseconds that, as milliseconds, fit a timestamp.
pub open spec fn cs_in_range(cs: int) -> bool {
    0 <= cs * 10 <= u32::MAX
}

pub open spec fn segment_valid(seg: Segment) -> bool {
    cs_in_range(seg.start_cs as int) && cs_in_range(seg.end_cs as int) && seg.start_cs
        <= seg.end_cs
}

/// The subtitle that segment number `i` (from 0) becomes.
pub open spec fn entry_of(e: SubtitleEntry, i: int, seg: Segment) -> bool {
    &&& e.id == i + 1
    &&& e.start_time == from_ms_spec((seg.start_cs * 10) as nat)
    &&& e.end_time == from_ms_spec((seg.end_cs * 10) as nat)
    &&& e.text@ == trimmed(seg.text@)
}

/// Turns segment number `index` (from 0) into a subtitle: number
/// `index + 1`, times from centiseconds to milliseconds, text trimmed.
pub fn segment_entry(index: u32, seg: &Segment) -> (r: Result<SubtitleEntry, PipelineError>)
    requires
        index < u32::MAX,
    ensures
        r is Ok <==> segment_valid(*seg),
        r matches Ok(e) ==> entry_of(e, index as int, *seg),
        r matches Ok(e) ==> total_ms(e.start_time) <= total_ms(e.end_time),
        r matches Err(e) ==> e is SegmentTime,
{
    if seg.start_cs < 0 || seg.start_cs > 429496729 || seg.end_cs < 0 || seg.end_cs > 429496729
        || seg.start_cs > seg.end_cs {
        return Err(PipelineError::SegmentTime);
    }
    let start_ms = (seg.start_cs * 10) as u32;
    let end_ms = (seg.end_cs * 10) as u32;
    Ok(
        SubtitleEntry {
            id: index + 1,
            start_time: TimeStamp::from_ms(start_ms),
            end_time: TimeStamp::from_ms(end_ms),
            text: trim_text(seg.text.as_str()),
        },
    )
}

/// Converts every segment, checking for cancellation before each one.
pub fn convert_segments(segments: &Vec<Segment>, token: &CancellationToken) -> (r: Result<
    Vec<SubtitleEntry>,
    PipelineError,
>)
    requires
        segments@.len() < u32::MAX,
    ensures
        r matches Ok(v) ==> (v@.len() == segments@.len() && forall|i: int|
            0 <= i < v@.len() ==> entry_of(#[trigger] v@[i], i, segments@[i])),
        r matches Err(e) ==> (e is Cancelled || (e is SegmentTime && exists|i: int|
            0 <= i < segments@.len() && !segment_valid(#[trigger] segments@[i]) && forall|j: int|
                0 <= j < i ==> segment_valid(#[trigger] segments@[j]))),
        segments@.len() == 0 ==> (r matches Ok(v) && v@.len() == 0),
{
    let mut out: Vec<SubtitleEntry> = Vec::new();
    let mut i: usize = 0;
    while i < segments.len()
        invariant
            segments@.len() < u32::MAX,
            i <= segments@.len(),
            out@.len() == i,
            forall|j: int| 0 <= j < i ==> entry_of(#[trigger] out@[j], j, segments@[j]),
            forall|j: int| 0 <= j < i ==> segment_valid(#[trigger] segments@[j]),
        decreases segments@.len() - i,
    {
        if is_cancelled(token) {
            return Err(PipelineError::Cancelled);
        }
        match segment_entry(i as u32, &segments[i]) {
            Ok(e) => out.push(e),
            Err(e) => return Err(e),
        }
        i = i + 1;
    }
    Ok(out)
}

/// Where a transcription run stands.
#[derive(Debug, Clone, Copy, PartialEq, Eq, Structural)]
pub enum Stage {
    LoadingAudio,
    LoadingModel,
    Transcribing,
    Converting,
    Completed,
    Cancelled,
    Failed,
}

/// Coarse tag of a progress event.
#[derive(Debug, Clone, Copy, PartialEq, Eq, Structural)]
pub enum Status {
    Loading,
    Downloading,
    Transcribing,
    Converting,
    Completed,
}

/// A progress event: percent done, a line for the user, and a tag.
#[derive(Debug, Clone)]
pub struct ProgressEvent {
    pub percent: u32,
    pub text: String,
    pub status: Status,
}

/// What the caller is to do next.
#[derive(Debug, Clone)]
pub enum Command {
    LoadAudio,
    LoadModel,
    RunInference,
    ConvertSegments,
    Stop(PipelineError),
}

/// One move of a run: an event to emit, if any, then a command.
#[derive(Debug, Clone)]
pub struct Step {
    pub progress: Option<ProgressEvent>,
    pub command: Command,
}

pub open spec fn emits(p: Option<ProgressEvent>, percent: u32, status: Status) -> bool {
    p matches Some(ev) && ev.percent == percent && ev.status == status
}

/// The decisions of one transcription run. The caller performs each
/// command and reports its outcome together with whether cancellation was
/// observed at the checkpoint that follows it.
#[derive(Debug)]
pub struct TranscriptionRun {
    pub stage: Stage,
}

fn event(percent: u32, text: &str, status: Status) -> (r: ProgressEvent)
    ensures
        r.percent == percent,
        r.status == status,
        r.text@ == text@,
{
    ProgressEvent { percent, text: String::from_str(text), status }
}

impl TranscriptionRun {
    /// Starts a run for `model`: fails with `ModelNotDownloaded` when the
    /// model is not on disk, before any audio is touched; stops when
    /// cancellation is already observed; else asks for the audio.
    pub fn start(model: &str, model_present: bool, cancelled: bool) -> (r: (
        TranscriptionRun,
        Step,
    ))
        ensures
            emits(r.1.progress, 0, Status::Loading),
            !model_present ==> (r.1.command matches Command::Stop(
                PipelineError::ModelNotDownloaded(m),
            ) && m@ == model@ && r.0.stage == Stage::Failed),
            model_present && cancelled ==> (r.0.stage == Stage::Cancelled && (r.1.command
                matches Command::Stop(PipelineError::Cancelled))),
            model_present && !cancelled ==> (r.0.stage == Stage::LoadingAudio && r.1.command
                is LoadAudio),
    {
        let progress = Some(event(0, "Loading audio file...", Status::Loading));
        if !model_present {
            let err = PipelineError::ModelNotDownloaded(String::from_str(model));
            (TranscriptionRun { stage: Stage::Failed }, Step { progress, command: Command::Stop(err) })
        } else if cancelled {
            (
                TranscriptionRun { stage: Stage::Cancelled },
                Step { progress, command: Command::Stop(PipelineError::Cancelled) },
            )
        } else {
            (TranscriptionRun { stage: Stage::LoadingAudio }, Step { progress, command: Command::LoadAudio })
        }
    }

    fn advance(
        &mut self,
        outcome: Result<(), PipelineError>,
        cancelled: bool,
        next: Stage,
        next_command: Command,
        percent: u32,
        text: &str,
        status: Status,
    ) -> (r: Step)
        ensures
            outcome matches Err(e) ==> (final(self).stage == Stage::Failed && r.command
                == Command::Stop(e) && r.progress is None),
            outcome is Ok && cancelled ==> (final(self).stage == Stage::Cancelled && (r.command
                matches Command::Stop(PipelineError::Cancelled)) && r.progress is None),
            outcome is Ok && !cancelled ==> (final(self).stage == next && r.command == next_command
                && emits(r.progress, percent, status)),
    {
        match outcome {
            Err(e) => {
                self.stage = Stage::Failed;
                Step { progress: None, command: Command::Stop(e) }
            },
            Ok(()) => {
                if cancelled {
                    self.stage = Stage::Cancelled;
                    Step { progress: None, command: Command::Stop(PipelineError::Cancelled) }
                } else {
                    self.stage = next;
                    Step { progress: Some(event(percent, text, status)), command: next_command }
                }
            },
        }
    }

    /// The audio was decoded, or failed to be.
    pub fn audio_loaded(&mut self, outcome: Result<(), PipelineError>, cancelled: bool) -> (r: Step)
        requires
            old(self).stage == Stage::LoadingAudio,
        ensures
            outcome matches Err(e) ==> (final(self).stage == Stage::Failed && r.command
                == Command::Stop(e) && r.progress is None),
            outcome is Ok && cancelled ==> (final(self).stage == Stage::Cancelled && (r.command
                matches Command::Stop(PipelineError::Cancelled)) && r.progress is None),
            outcome is Ok && !cancelled ==> (final(self).stage == Stage::LoadingModel && r.command
                is LoadModel && emits(r.progress, 10, Status::Loading)),
    {
        self.advance(
            outcome,
            cancelled,
            Stage::LoadingModel,
            Command::LoadModel,
            10,
            "Loading Whisper model...",
            Status::Loading,
        )
    }

    /// The model was loaded, or failed to be.
    pub fn model_loaded(&mut self, outcome: Result<(), PipelineError>, cancelled: bool) -> (r: Step)
        requires
            old(self).stage == Stage::LoadingModel,
        ensures
            outcome matches Err(e) ==> (final(self).stage == Stage::Failed && r.command
                == Command::Stop(e) && r.progress is None),
            outcome is Ok && cancelled ==> (final(self).stage == Stage::Cancelled && (r.command
                matches Command::Stop(PipelineError::Cancelled)) && r.progress is None),
            outcome is Ok && !cancelled ==> (final(self).stage == Stage::Transcribing && r.command
                is RunInference && emits(r.progress, 20, Status::Transcribing)),
    {
        self.advance(
            outcome,
            cancelled,
            Stage::Transcribing,
            Command::RunInference,
            20,
            "Transcribing audio...",
            Status::Transcribing,
        )
    }

    /// Inference returned. Its result is discarded when cancellation arrived
    /// meanwhile.
    pub fn inference_done(&mut self, outcome: Result<(), PipelineError>, cancelled: bool) -> (r:
        Step)
        requires
            old(self).stage == Stage::Transcribing,
        ensures
            outcome matches Err(e) ==> (final(self).stage == Stage::Failed && r.command
                == Command::Stop(e) && r.progress is None),
            outcome is Ok && cancelled ==> (final(self).stage == Stage::Cancelled && (r.command
                matches Command::Stop(PipelineError::Cancelled)) && r.progress is None),
            outcome is Ok && !cancelled ==> (final(self).stage == Stage::Converting && r.command
                is ConvertSegments && emits(r.progress, 80, Status::Converting)),
    {
        self.advance(
            outcome,
            cancelled,
            Stage::Converting,
            Command::ConvertSegments,
            80,
            "Converting to subtitles...",
            Status::Converting,
        )
    }

    /// The segments were converted. Returns the run's result and the final
    /// event: a cancelled run never hands out subtitles.
    pub fn finish(
        &mut self,
        outcome: Result<Vec<SubtitleEntry>, PipelineError>,
        cancelled: bool,
    ) -> (r: (Result<Vec<SubtitleEntry>, PipelineError>, Option<ProgressEvent>))
        requires
            old(self).stage == Stage::Converting,
        ensures
            outcome matches Err(e) ==> (r.0 == Err::<Vec<SubtitleEntry>, PipelineError>(e)
                && r.1 is None && final(self).stage == (if e is Cancelled {
                Stage::Cancelled
            } else {
                Stage::Failed
            })),
            outcome is Ok && cancelled ==> (final(self).stage == Stage::Cancelled && (r.0 matches Err(
                PipelineError::Cancelled,
            )) && r.1 is None),
            outcome is Ok && !cancelled ==> (final(self).stage == Stage::Completed && r.0
                == outcome && emits(r.1, 100, Status::Completed)),
            outcome is Ok && !cancelled ==> (r.1 matches Some(ev) && ev.text@
                == "Transcription completed! Generated "@ + decimal(outcome->Ok_0@.len() as nat)
                + " subtitles"@),
    {
        match outcome {
            Err(e) => {
                self.stage = if matches!(e, PipelineError::Cancelled) {
                    Stage::Cancelled
                } else {
                    Stage::Failed
                };
                (Err(e), None)
            },
            Ok(v) => {
                if cancelled {
                    self.stage = Stage::Cancelled;
                    (Err(PipelineError::Cancelled), None)
                } else {
                    self.stage = Stage::Completed;
                    let mut text = String::from_str("Transcription completed! Generated ");
                    push_decimal(&mut text, v.len() as u64);
                    text.append(" subtitles");
                    (Ok(v), Some(ProgressEvent { percent: 100, text, status: Status::Completed }))
                }
            },
        }
    }
}

} // verus!
