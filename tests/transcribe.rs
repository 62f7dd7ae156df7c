use srt_editor::error::PipelineError;
use srt_editor::timestamp::TimeStamp;
use srt_editor::transcribe::{
    cancel_transcription, convert_segments, is_cancelled, reset_cancellation, segment_entry,
    CancellationToken, Command, Segment, Stage, Status, TranscriptionRun,
};

fn seg(start_cs: i64, end_cs: i64, text: &str) -> Segment {
    Segment { start_cs, end_cs, text: text.to_string() }
}

#[test]
fn token_round_trip() {
    let token = CancellationToken::new();
    assert!(!is_cancelled(&token));
    let other = token.clone();
    cancel_transcription(&other);
    assert!(is_cancelled(&token));
    reset_cancellation(&token);
    assert!(!is_cancelled(&other));
}

#[test]
fn segment_becomes_entry() {
    let e = segment_entry(0, &seg(6123, 372345, "  hello world \n")).unwrap();
    assert_eq!(e.id, 1);
    assert_eq!(e.start_time, TimeStamp { hours: 0, minutes: 1, seconds: 1, milliseconds: 230 });
    assert_eq!(e.end_time, TimeStamp { hours: 1, minutes: 2, seconds: 3, milliseconds: 450 });
    assert_eq!(e.text, "hello world");
}

#[test]
fn segment_time_errors() {
    assert!(matches!(segment_entry(0, &seg(-1, 5, "x")), Err(PipelineError::SegmentTime)));
    assert!(matches!(segment_entry(0, &seg(9, 5, "x")), Err(PipelineError::SegmentTime)));
    assert!(matches!(segment_entry(0, &seg(0, 429496730, "x")), Err(PipelineError::SegmentTime)));
    assert!(segment_entry(0, &seg(0, 429496729, "x")).is_ok());
}

#[test]
fn conversion_numbers_sequentially() {
    let token = CancellationToken::new();
    let segs = vec![seg(0, 100, "a"), seg(100, 250, " b ")];
    let v = convert_segments(&segs, &token).unwrap();
    assert_eq!(v.len(), 2);
    assert_eq!(v[0].id, 1);
    assert_eq!(v[1].id, 2);
    assert_eq!(v[1].text, "b");
    assert_eq!(v[1].end_time.to_ms(), 2500);
}

#[test]
fn cancelled_conversion_yields_cancelled() {
    let token = CancellationToken::new();
    cancel_transcription(&token);
    let segs = vec![seg(0, 100, "a")];
    assert!(matches!(convert_segments(&segs, &token), Err(PipelineError::Cancelled)));
}

#[test]
fn missing_model_fails_before_audio() {
    let (run, step) = TranscriptionRun::start("tiny", false, false);
    assert_eq!(run.stage, Stage::Failed);
    match step.command {
        Command::Stop(PipelineError::ModelNotDownloaded(m)) => assert_eq!(m, "tiny"),
        other => panic!("unexpected command {:?}", other),
    }
}

#[test]
fn cancel_before_first_checkpoint() {
    let (run, step) = TranscriptionRun::start("base", true, true);
    assert_eq!(run.stage, Stage::Cancelled);
    assert!(matches!(step.command, Command::Stop(PipelineError::Cancelled)));
}

#[test]
fn cancel_after_inference_discards_result() {
    let (mut run, _) = TranscriptionRun::start("base", true, false);
    run.audio_loaded(Ok(()), false);
    run.model_loaded(Ok(()), false);
    let step = run.inference_done(Ok(()), true);
    assert_eq!(run.stage, Stage::Cancelled);
    assert!(matches!(step.command, Command::Stop(PipelineError::Cancelled)));
}

#[test]
fn full_run_completes() {
    let (mut run, step) = TranscriptionRun::start("base", true, false);
    assert!(matches!(step.command, Command::LoadAudio));
    assert_eq!(step.progress.as_ref().unwrap().percent, 0);
    let step = run.audio_loaded(Ok(()), false);
    assert!(matches!(step.command, Command::LoadModel));
    assert_eq!(step.progress.as_ref().unwrap().percent, 10);
    let step = run.model_loaded(Ok(()), false);
    assert!(matches!(step.command, Command::RunInference));
    assert_eq!(step.progress.as_ref().unwrap().status, Status::Transcribing);
    let step = run.inference_done(Ok(()), false);
    assert!(matches!(step.command, Command::ConvertSegments));
    assert_eq!(step.progress.as_ref().unwrap().percent, 80);
    let token = CancellationToken::new();
    let entries = convert_segments(&vec![seg(0, 50, "hi")], &token);
    let (result, event) = run.finish(entries, false);
    assert_eq!(result.unwrap().len(), 1);
    let event = event.unwrap();
    assert_eq!(event.percent, 100);
    assert_eq!(event.status, Status::Completed);
    assert_eq!(event.text, "Transcription completed! Generated 1 subtitles");
    assert_eq!(run.stage, Stage::Completed);
}

#[test]
fn failure_is_terminal() {
    let (mut run, _) = TranscriptionRun::start("base", true, false);
    let step = run.audio_loaded(Err(PipelineError::Probe("bad".to_string())), false);
    assert_eq!(run.stage, Stage::Failed);
    assert!(matches!(step.command, Command::Stop(PipelineError::Probe(_))));
}

#[test]
fn error_messages() {
    assert_eq!(PipelineError::Cancelled.message(), "Transcription cancelled");
    assert_eq!(PipelineError::Io("x".to_string()).message(), "I/O error: x");
}

#[test]
fn empty_conversion_succeeds_even_when_cancelled() {
    let token = CancellationToken::new();
    cancel_transcription(&token);
    assert_eq!(convert_segments(&Vec::new(), &token).unwrap().len(), 0);
}

#[test]
fn first_invalid_segment_stops_conversion() {
    let token = CancellationToken::new();
    let segs = vec![seg(0, 10, "a"), seg(5, 1, "b"), seg(0, 10, "c")];
    assert!(matches!(convert_segments(&segs, &token), Err(PipelineError::SegmentTime)));
}

#[test]
fn segment_text_trims_unicode_white_space() {
    let e = segment_entry(4, &seg(0, 1, "\u{3000}\t mixed text\u{a0}\u{2028}")).unwrap();
    assert_eq!(e.id, 5);
    assert_eq!(e.text, "mixed text");
    let blank = segment_entry(0, &seg(0, 1, " \n ")).unwrap();
    assert_eq!(blank.text, "");
}
