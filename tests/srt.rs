use srt_editor::srt::parse_srt;
use srt_editor::timestamp::TimeStamp;

#[test]
fn test_parse_srt() {
    let content = r#"1
00:00:01,000 --> 00:00:04,000
This is the first subtitle

2
00:00:05,000 --> 00:00:08,000
This is the second subtitle"#;

    let entries = parse_srt(content).unwrap();
    assert_eq!(entries.len(), 2);
    assert_eq!(entries[0].id, 1);
    assert_eq!(entries[0].text, "This is the first subtitle");
}

#[test]
fn parse_srt_fields_and_multiline_text() {
    let content = "7\r\n00:00:01,500 --> 00:00:02,250\r\nline one\r\nline two\r\n";
    let entries = parse_srt(content).unwrap();
    assert_eq!(entries.len(), 1);
    assert_eq!(entries[0].id, 7);
    assert_eq!(entries[0].start_time, TimeStamp { hours: 0, minutes: 0, seconds: 1, milliseconds: 500 });
    assert_eq!(entries[0].end_time, TimeStamp { hours: 0, minutes: 0, seconds: 2, milliseconds: 250 });
    assert_eq!(entries[0].text, "line one\nline two");
}

#[test]
fn parse_srt_skips_short_and_empty_blocks() {
    let content = "\n\n1\n00:00:01,000 --> 00:00:02,000\n\n2\n00:00:03,000 --> 00:00:04,000\nkept";
    let entries = parse_srt(content).unwrap();
    assert_eq!(entries.len(), 1);
    assert_eq!(entries[0].id, 2);
    assert_eq!(entries[0].text, "kept");
}

#[test]
fn parse_srt_errors() {
    assert!(parse_srt("x\n00:00:01,000 --> 00:00:02,000\ntext").is_err());
    assert!(parse_srt("1\n00:00:01,000 -> 00:00:02,000\ntext").is_err());
    assert!(parse_srt("1\n00:00:01 --> 00:00:02,000\ntext").is_err());
}

#[test]
fn parse_srt_empty() {
    assert_eq!(parse_srt("").unwrap().len(), 0);
}

use srt_editor::srt::{markdown_file_text, srt_file_text, txt_file_text, vtt_file_text};
use srt_editor::timestamp::SubtitleEntry;

fn sample_entries() -> Vec<SubtitleEntry> {
    vec![
        SubtitleEntry {
            id: 9,
            start_time: TimeStamp { hours: 0, minutes: 0, seconds: 1, milliseconds: 0 },
            end_time: TimeStamp { hours: 0, minutes: 0, seconds: 2, milliseconds: 500 },
            text: "first\nline".to_string(),
        },
        SubtitleEntry {
            id: 3,
            start_time: TimeStamp { hours: 1, minutes: 2, seconds: 3, milliseconds: 4 },
            end_time: TimeStamp { hours: 1, minutes: 2, seconds: 5, milliseconds: 0 },
            text: "second".to_string(),
        },
    ]
}

#[test]
fn srt_file_renumbers_cues() {
    assert_eq!(
        srt_file_text(&sample_entries()),
        "1\n00:00:01,000 --> 00:00:02,500\nfirst\nline\n\n2\n01:02:03,004 --> 01:02:05,000\nsecond"
    );
    assert_eq!(srt_file_text(&Vec::new()), "");
}

#[test]
fn srt_file_reads_back() {
    let entries = sample_entries();
    let back = parse_srt(&srt_file_text(&entries)).unwrap();
    assert_eq!(back.len(), 2);
    assert_eq!(back[1].id, 2);
    assert_eq!(back[1].start_time, entries[1].start_time);
    assert_eq!(back[0].text, "first\nline");
}

#[test]
fn vtt_txt_and_markdown() {
    let entries = sample_entries();
    assert_eq!(
        vtt_file_text(&entries),
        "WEBVTT\n\n1\n00:00:01.000 --> 00:00:02.500\nfirst\nline\n\n2\n01:02:03.004 --> 01:02:05.000\nsecond"
    );
    assert_eq!(txt_file_text(&entries), "first\nline\nsecond");
    assert_eq!(
        markdown_file_text(&entries),
        "# 视频脚本\n\n**[00:00:01 - 00:00:02]** first line\n\n**[01:02:03 - 01:02:05]** second"
    );
}
