use srt_editor::audio::{
    audio_track, downmix, normalize, resample, select_track, to_inference_rate, DecodeSession,
    DecodedBuffer, SampleData, TrackInfo,
};
use srt_editor::error::PipelineError;
use srt_editor::waveform::downsample;

#[test]
fn single_channel_is_identity() {
    let b = DecodedBuffer { channels: 1, data: SampleData::S32(vec![5, -7, i32::MIN, i32::MAX]) };
    assert_eq!(normalize(&b), vec![5, -7, i32::MIN, i32::MAX]);
    let b16 = DecodedBuffer { channels: 1, data: SampleData::S16(vec![1, -1, i16::MIN]) };
    assert_eq!(normalize(&b16), vec![65536, -65536, i32::MIN]);
}

#[test]
fn u8_is_recentred() {
    let b = DecodedBuffer { channels: 1, data: SampleData::U8(vec![128, 0, 255]) };
    assert_eq!(normalize(&b), vec![0, i32::MIN, 127 * 16777216]);
}

#[test]
fn channels_are_averaged_rounding_down() {
    let b = DecodedBuffer { channels: 2, data: SampleData::S32(vec![10, 20, -3, 0, 7]) };
    // the trailing partial frame is dropped
    assert_eq!(normalize(&b), vec![15, -2]);
    assert_eq!(downmix(&vec![i32::MIN, i32::MIN, i32::MIN], 3), vec![i32::MIN]);
}

#[test]
fn unsupported_gives_empty_fragment() {
    let b = DecodedBuffer { channels: 2, data: SampleData::Unsupported };
    assert!(normalize(&b).is_empty());
    let z = DecodedBuffer { channels: 0, data: SampleData::S32(vec![1, 2]) };
    assert!(normalize(&z).is_empty());
}

#[test]
fn resample_same_rate_is_unchanged() {
    let s = vec![1, 2, 3, 4, 5];
    assert_eq!(resample(&s, 44100, 44100), s);
}

#[test]
fn resample_length_and_values() {
    let s: Vec<i32> = (0..10).collect();
    assert_eq!(resample(&s, 48000, 16000), vec![0, 3, 6]);
    assert_eq!(resample(&s, 16000, 32000).len(), 20);
    assert_eq!(resample(&s, 3, 2), vec![0, 1, 3, 4, 6, 7]);
    assert_eq!(resample(&s, 44100, 16000).len(), 10 * 16000 / 44100);
}

#[test]
fn track_selection() {
    let tracks = vec![
        TrackInfo { id: 3, has_codec: false, sample_rate: None },
        TrackInfo { id: 5, has_codec: true, sample_rate: Some(48000) },
        TrackInfo { id: 6, has_codec: true, sample_rate: Some(8000) },
    ];
    assert_eq!(select_track(&tracks), Some(1));
    assert!(matches!(audio_track(&tracks), Ok((5, 48000))));
    assert!(matches!(audio_track(&vec![tracks[0]]), Err(PipelineError::NoAudioTrack)));
    let no_rate = vec![TrackInfo { id: 1, has_codec: true, sample_rate: None }];
    assert!(matches!(audio_track(&no_rate), Err(PipelineError::NoSampleRate)));
}

#[test]
fn corrupted_packet_is_skipped() {
    let mut session = DecodeSession::new(1);
    assert!(session.wants(1));
    assert!(!session.wants(2));
    session.accept(&DecodedBuffer { channels: 1, data: SampleData::S16(vec![100, 200]) });
    session.skip_failed();
    session.accept(&DecodedBuffer { channels: 1, data: SampleData::S16(vec![300]) });
    assert_eq!(session.skipped, 1);
    assert_eq!(session.packets, 2);
    let samples = session.finish().unwrap();
    assert_eq!(samples, vec![100 * 65536, 200 * 65536, 300 * 65536]);
}

#[test]
fn empty_decode_is_an_error() {
    let mut session = DecodeSession::new(1);
    session.skip_failed();
    assert!(matches!(session.finish(), Err(PipelineError::NoSamples)));
}

#[test]
fn decode_progress_reports() {
    let mut session = DecodeSession::new(0);
    let mut reports = Vec::new();
    for _ in 0..1000 {
        if let Some(p) = session.accept(&DecodedBuffer { channels: 1, data: SampleData::U8(vec![128]) }) {
            reports.push(p);
        }
    }
    assert_eq!(reports, vec![40, 80, 120, 160, 200]);
}

#[test]
fn synthetic_tone_end_to_end() {
    // three channels, 48 kHz, two seconds of a 440 Hz tone as 16-bit samples
    let rate = 48000usize;
    let mut interleaved = Vec::new();
    for n in 0..2 * rate {
        let v = ((n as f64 * 440.0 * 2.0 * std::f64::consts::PI / rate as f64).sin() * 16000.0) as i16;
        for _ in 0..3 {
            interleaved.push(v);
        }
    }
    let mut session = DecodeSession::new(0);
    for chunk in interleaved.chunks(3 * 1152) {
        session.accept(&DecodedBuffer { channels: 3, data: SampleData::S16(chunk.to_vec()) });
    }
    let mono = session.finish().unwrap();
    assert_eq!(mono.len(), 2 * rate);
    let resampled = to_inference_rate(&mono, 48000);
    assert_eq!(resampled.len(), 32000);
    let w = downsample(&resampled, 100);
    assert_eq!(w.len(), 100);
    assert!(w.iter().all(|&v| v <= 2147483648));
    assert!(w.iter().any(|&v| v > 0));
}

#[test]
fn resample_zero_equal_rates_is_unchanged() {
    let s = vec![4, 5];
    assert_eq!(resample(&s, 0, 0), s);
}
