use silcut::cli::{start_silcut, Args};
use silcut::ffmpeg::{
    concat_command, detect_command, detect_silence, extract_command, merge_segments,
    segment_trimmed, trim_silence, Action, Event, Failure, KeepSegment, Pipeline, SilenceEvent,
    Stage,
};

const S: u64 = 1_000_000;

fn strings(list: &[&str]) -> Vec<String> {
    list.iter().map(|s| s.to_string()).collect()
}

fn args() -> Args {
    Args {
        file_path: "in/my talk.mp3".to_string(),
        out_path: Some("out".to_string()),
        silence: -30,
        minimum_silence_duration: 500_000,
    }
}

fn report(silences: &[(&str, &str, &str)]) -> String {
    let mut text = String::from(
        "Input #0, mp3, from 'in/my talk.mp3':\n  Duration: 00:01:40.00, start: 0.000000, bitrate: 128 kb/s\n",
    );
    for (start, end, duration) in silences {
        text.push_str(&format!("[silencedetect @ 0x55] silence_start: {}\n", start));
        text.push_str(&format!(
            "[silencedetect @ 0x55] silence_end: {} | silence_duration: {}\n",
            end, duration
        ));
    }
    text.push_str("size=N/A time=00:01:40.00 bitrate=N/A speed=1e+03x\n");
    text
}

fn extract(start: &str, end: &str, output: &str) -> Action {
    Action::Extract {
        args: strings(&["-ss", start, "-to", end, "-i", "in/my talk.mp3", "-c", "copy", output]),
        output: output.to_string(),
    }
}

#[test]
fn a_run_starts_with_the_detecting_command() {
    let (pipeline, action) = start_silcut(args(), "my talk", Some("mp3"));
    assert_eq!(pipeline.stage, Stage::Detecting);
    assert_eq!(pipeline.file_path, "in/my talk.mp3");
    assert_eq!(pipeline.out_path, "out");
    assert_eq!(pipeline.base, "mytalk");
    assert_eq!(pipeline.extension, "mp3");
    assert_eq!(pipeline.cursor, 0);
    assert!(pipeline.segments.is_empty() && pipeline.manifest.is_empty());
    assert_eq!(
        action,
        Action::Detect {
            args: strings(&[
                "-i",
                "in/my talk.mp3",
                "-af",
                "silencedetect=n=-30dB:d=0.5",
                "-f",
                "null",
                "-"
            ])
        }
    );
}

#[test]
fn the_output_goes_to_the_current_directory_by_default() {
    let without = Args { out_path: None, ..args() };
    let (pipeline, _) = start_silcut(without, "a", None);
    assert_eq!(pipeline.out_path, ".");
    assert_eq!(pipeline.extension, "mp3");
}

#[test]
fn command_lines_are_built_from_their_parts() {
    assert_eq!(
        detect_command("a.mp4", 30, 2 * S),
        strings(&["-i", "a.mp4", "-af", "silencedetect=n=30dB:d=2", "-f", "null", "-"])
    );
    assert_eq!(
        detect_command("a.mp4", i32::MIN, 1),
        strings(&["-i", "a.mp4", "-af", "silencedetect=n=-2147483648dB:d=0.000001", "-f", "null", "-"])
    );
    assert_eq!(
        extract_command("a.mp4", 12 * S, 100 * S, "o/a_12_100.mp4"),
        strings(&[
            "-ss",
            "00:00:12.000",
            "-to",
            "00:01:40.000",
            "-i",
            "a.mp4",
            "-c",
            "copy",
            "o/a_12_100.mp4"
        ])
    );
    assert_eq!(
        concat_command("o/concat_list.txt", "o/a.mp4"),
        strings(&["-f", "concat", "-safe", "0", "-i", "o/concat_list.txt", "-c", "copy", "o/a.mp4"])
    );
}

#[test]
fn a_run_cuts_the_silence_and_joins_the_rest() {
    let (mut pipeline, _) = start_silcut(args(), "my talk", Some("mp3"));
    let stderr = report(&[("0", "2", "2"), ("10", "12", "2")]);

    let action = pipeline.advance(Event::Detected { success: true, stderr });
    assert_eq!(pipeline.stage, Stage::Preparing);
    assert_eq!(pipeline.total_duration, 100 * S);
    assert_eq!(
        pipeline.events,
        vec![
            SilenceEvent { start: 0, end: 2 * S, duration: 2 * S },
            SilenceEvent { start: 10 * S, end: 12 * S, duration: 2 * S }
        ]
    );
    assert_eq!(
        pipeline.segments,
        vec![
            KeepSegment { start: 2 * S, end: 10 * S },
            KeepSegment { start: 12 * S, end: 100 * S }
        ]
    );
    assert_eq!(
        action,
        Action::Prepare {
            dir: "out".to_string(),
            manifest_path: "out/concat_list.txt".to_string()
        }
    );

    let action = pipeline.advance(Event::Prepared { manifest_created: true });
    assert_eq!(pipeline.stage, Stage::Extracting);
    assert_eq!(action, extract("00:00:02.000", "00:00:10.000", "out/mytalk_2_10.mp3"));

    let action =
        pipeline.advance(Event::Trimmed { path: Some("/abs/out/mytalk_2_10.mp3".to_string()) });
    assert_eq!(pipeline.stage, Stage::Extracting);
    assert_eq!(pipeline.cursor, 1);
    assert_eq!(action, extract("00:00:12.000", "00:01:40.000", "out/mytalk_12_100.mp3"));

    let action =
        pipeline.advance(Event::Trimmed { path: Some("/abs/out/mytalk_12_100.mp3".to_string()) });
    assert_eq!(pipeline.stage, Stage::Merging);
    assert_eq!(
        pipeline.manifest,
        strings(&["/abs/out/mytalk_2_10.mp3", "/abs/out/mytalk_12_100.mp3"])
    );
    assert_eq!(
        action,
        Action::Concat {
            manifest_path: "out/concat_list.txt".to_string(),
            manifest: "file '/abs/out/mytalk_2_10.mp3'\nfile '/abs/out/mytalk_12_100.mp3'\n"
                .to_string(),
            args: strings(&[
                "-f",
                "concat",
                "-safe",
                "0",
                "-i",
                "out/concat_list.txt",
                "-c",
                "copy",
                "out/mytalk.mp3"
            ]),
            output: "out/mytalk.mp3".to_string(),
        }
    );

    let action = pipeline.advance(Event::Merged { success: true });
    assert_eq!(pipeline.stage, Stage::Finished);
    assert_eq!(
        action,
        Action::Cleanup { dir: "out".to_string(), keep: "out/mytalk.mp3".to_string() }
    );
}

#[test]
fn one_silence_leaves_two_stretches_to_extract_and_join() {
    let (mut pipeline, _) = start_silcut(args(), "my talk", Some("mp3"));
    let stderr = "  Duration: 00:01:40.00, start: 0.0\nsilence_start: 10\nsilence_end: 12 | silence_duration: 2\n";
    let action = detect_silence(&mut pipeline, true, stderr);
    assert!(matches!(action, Action::Prepare { .. }));
    assert_eq!(
        pipeline.segments,
        vec![KeepSegment { start: 0, end: 10 * S }, KeepSegment { start: 12 * S, end: 100 * S }]
    );
    let requested: u64 = pipeline.segments.iter().map(|k| k.end - k.start).sum();
    assert_eq!(requested, 98 * S);
    let first = trim_silence(&mut pipeline, true);
    assert_eq!(first, extract("00:00:00.000", "00:00:10.000", "out/mytalk_0_10.mp3"));
    let second = segment_trimmed(&mut pipeline, Some("/o/mytalk_0_10.mp3".to_string()));
    assert_eq!(second, extract("00:00:12.000", "00:01:40.000", "out/mytalk_12_100.mp3"));
    let last = segment_trimmed(&mut pipeline, Some("/o/mytalk_12_100.mp3".to_string()));
    assert_eq!(pipeline.manifest, strings(&["/o/mytalk_0_10.mp3", "/o/mytalk_12_100.mp3"]));
    match last {
        Action::Concat { manifest, output, .. } => {
            assert_eq!(manifest, "file '/o/mytalk_0_10.mp3'\nfile '/o/mytalk_12_100.mp3'\n");
            assert_eq!(output, "out/mytalk.mp3");
        }
        other => panic!("unexpected action {:?}", other),
    }
    assert_eq!(
        merge_segments(&mut pipeline, true),
        Action::Cleanup { dir: "out".to_string(), keep: "out/mytalk.mp3".to_string() }
    );
}

#[test]
fn the_output_has_the_extension_of_the_recording() {
    let wav = Args { file_path: "talk.wav".to_string(), ..args() };
    let (mut pipeline, _) = start_silcut(wav, "talk", Some("wav"));
    assert_eq!(pipeline.extension, "wav");
    detect_silence(&mut pipeline, true, "Duration: 00:00:05.00, start: 0\n");
    let action = trim_silence(&mut pipeline, true);
    match action {
        Action::Extract { output, .. } => assert_eq!(output, "out/talk_0_5.wav"),
        other => panic!("unexpected action {:?}", other),
    }
    match segment_trimmed(&mut pipeline, Some("/o/talk_0_5.wav".to_string())) {
        Action::Concat { output, .. } => assert_eq!(output, "out/talk.wav"),
        other => panic!("unexpected action {:?}", other),
    }
}

#[test]
fn a_failed_extraction_is_left_out_and_the_run_goes_on() {
    let (mut pipeline, _) = start_silcut(args(), "my talk", Some("mp3"));
    let stderr = report(&[("0", "2", "2"), ("10", "12", "2"), ("20", "30", "10")]);
    detect_silence(&mut pipeline, true, &stderr);
    trim_silence(&mut pipeline, true);
    segment_trimmed(&mut pipeline, Some("/o/a".to_string()));
    let action = segment_trimmed(&mut pipeline, None);
    assert_eq!(pipeline.stage, Stage::Extracting);
    assert_eq!(pipeline.cursor, 2);
    assert_eq!(action, extract("00:00:30.000", "00:01:40.000", "out/mytalk_30_100.mp3"));
    let action = segment_trimmed(&mut pipeline, Some("/o/c".to_string()));
    assert_eq!(pipeline.manifest, strings(&["/o/a", "/o/c"]));
    match action {
        Action::Concat { manifest, .. } => assert_eq!(manifest, "file '/o/a'\nfile '/o/c'\n"),
        other => panic!("unexpected action {:?}", other),
    }
}

#[test]
fn a_failed_detection_ends_the_run() {
    let (mut pipeline, _) = start_silcut(args(), "my talk", Some("mp3"));
    let action = detect_silence(&mut pipeline, false, "ffmpeg: no such file");
    assert_eq!(action, Action::Stop);
    assert_eq!(pipeline.stage, Stage::Failed(Failure::Detection));
    assert!(pipeline.segments.is_empty());
}

#[test]
fn a_missing_manifest_ends_the_run() {
    let (mut pipeline, _) = start_silcut(args(), "my talk", Some("mp3"));
    detect_silence(&mut pipeline, true, &report(&[("0", "2", "2")]));
    let action = trim_silence(&mut pipeline, false);
    assert_eq!(action, Action::Stop);
    assert_eq!(pipeline.stage, Stage::Failed(Failure::Manifest));
}

#[test]
fn a_failed_merge_ends_the_run_without_cleanup() {
    let (mut pipeline, _) = start_silcut(args(), "my talk", Some("mp3"));
    detect_silence(&mut pipeline, true, &report(&[("0", "2", "2")]));
    trim_silence(&mut pipeline, true);
    segment_trimmed(&mut pipeline, Some("/o/a".to_string()));
    assert_eq!(pipeline.stage, Stage::Merging);
    let action = merge_segments(&mut pipeline, false);
    assert_eq!(action, Action::Stop);
    assert_eq!(pipeline.stage, Stage::Failed(Failure::Merge));
}

#[test]
fn a_report_without_a_duration_leaves_nothing_to_keep() {
    let (mut pipeline, _) = start_silcut(args(), "my talk", Some("mp3"));
    let action = detect_silence(&mut pipeline, true, "no markers here\n");
    assert_eq!(pipeline.total_duration, 0);
    assert!(pipeline.events.is_empty() && pipeline.segments.is_empty());
    assert!(matches!(action, Action::Prepare { .. }));
    let action = trim_silence(&mut pipeline, true);
    assert_eq!(pipeline.stage, Stage::Merging);
    match action {
        Action::Concat { manifest, .. } => assert_eq!(manifest, ""),
        other => panic!("unexpected action {:?}", other),
    }
}

#[test]
fn an_event_out_of_turn_changes_nothing() {
    let (mut pipeline, _) = start_silcut(args(), "my talk", Some("mp3"));
    assert_eq!(pipeline.advance(Event::Merged { success: true }), Action::Stop);
    assert_eq!(pipeline.advance(Event::Prepared { manifest_created: true }), Action::Stop);
    assert_eq!(pipeline.advance(Event::Trimmed { path: Some("x".to_string()) }), Action::Stop);
    assert_eq!(pipeline.stage, Stage::Detecting);
    assert!(pipeline.manifest.is_empty());
    detect_silence(&mut pipeline, true, &report(&[]));
    assert_eq!(detect_silence(&mut pipeline, true, &report(&[])), Action::Stop);
    assert_eq!(pipeline.stage, Stage::Preparing);
    assert_eq!(pipeline.segments, vec![KeepSegment { start: 0, end: 100 * S }]);
}

#[test]
fn a_plan_is_made_from_given_silences() {
    let mut pipeline = Pipeline::new("a b.MP4".to_string(), "".to_string(), "a b", Some("MP4"));
    let events = vec![SilenceEvent { start: 0, end: 1_500_000, duration: 1_500_000 }];
    let action = pipeline.plan(events, 3 * S);
    assert_eq!(
        action,
        Action::Prepare { dir: "".to_string(), manifest_path: "concat_list.txt".to_string() }
    );
    assert_eq!(pipeline.segments, vec![KeepSegment { start: 1_500_000, end: 3 * S }]);
    let action = trim_silence(&mut pipeline, true);
    assert_eq!(
        action,
        Action::Extract {
            args: strings(&[
                "-ss",
                "00:00:01.500",
                "-to",
                "00:00:03.000",
                "-i",
                "a b.MP4",
                "-c",
                "copy",
                "ab_1.5_3.MP4"
            ]),
            output: "ab_1.5_3.MP4".to_string(),
        }
    );
}
