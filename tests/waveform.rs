use srt_editor::waveform::CallbackSink;
use srt_editor::waveform::{downsample, downsample_progress, downsample_with_progress, waveform_from_samples, ProgressLog};

fn fixed(x: f32) -> i32 {
    (x as f64 * 2147483648.0).clamp(-2147483648.0, 2147483647.0) as i32
}

#[test]
fn test_downsample() {
    let samples: Vec<i32> = vec![0.5, 0.8, 0.3, 0.9, 0.1, 0.7].into_iter().map(fixed).collect();
    let result = downsample(&samples, 3);
    assert_eq!(result.len(), 3);
}

#[test]
fn downsample_takes_peaks_and_last_bucket_absorbs_remainder() {
    let samples = vec![1, -5, 3, 2, -7, 4, 6];
    // 7 samples into 3 buckets: [0,2) [2,4) [4,7)
    assert_eq!(downsample(&samples, 3), vec![5, 3, 7]);
}

#[test]
fn downsample_short_input_gives_magnitudes() {
    let samples = vec![-3, 0, i32::MIN, 9];
    assert_eq!(downsample(&samples, 10), vec![3, 0, 2147483648, 9]);
    assert_eq!(downsample(&Vec::new(), 5), Vec::<u32>::new());
}

#[test]
fn downsample_length_and_bounds() {
    let samples: Vec<i32> = (0..1001).map(|i| (i * 7919 % 2001) - 1000).collect();
    let peak = samples.iter().map(|x| x.unsigned_abs()).max().unwrap();
    for t in [1usize, 2, 7, 100, 1000, 1001, 5000] {
        let w = downsample(&samples, t);
        assert_eq!(w.len(), t.min(samples.len()));
        assert!(w.iter().all(|&v| v <= peak));
    }
}

#[test]
fn progress_schedule() {
    let samples = vec![1; 5000];
    let mut log = ProgressLog::new();
    let w = waveform_from_samples(&samples, 2500, &mut log);
    assert_eq!(w.len(), 2500);
    assert_eq!(log.values, vec![800, 800, 880, 960, 990, 1000]);
    assert_eq!(downsample_progress(0, 2500), 800);
    assert_eq!(downsample_progress(2499, 2500), 990);
    let mut short = ProgressLog::new();
    downsample_with_progress(&vec![1, 2], 5, &mut short);
    assert_eq!(short.values, vec![900]);
}

#[test]
fn callback_sink_forwards_reports() {
    let seen = std::cell::RefCell::new(Vec::new());
    let mut sink = CallbackSink::new(|p: u32| seen.borrow_mut().push(p));
    waveform_from_samples(&vec![3, -4], 1, &mut sink);
    drop(sink);
    assert_eq!(seen.into_inner(), vec![800, 990, 1000]);
}
