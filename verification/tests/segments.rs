use silcut::ffmpeg::{filter_segments, KeepSegment, SilenceEvent};

fn silence(start: u64, end: u64) -> SilenceEvent {
    SilenceEvent { start, end, duration: end - start }
}

fn keep(start: u64, end: u64) -> KeepSegment {
    KeepSegment { start, end }
}

const S: u64 = 1_000_000;

#[test]
fn no_silence_keeps_the_whole_recording() {
    assert_eq!(filter_segments(&[], 100 * S), vec![keep(0, 100 * S)]);
}

#[test]
fn no_silence_in_an_empty_recording_keeps_nothing() {
    assert_eq!(filter_segments(&[], 0), vec![]);
}

#[test]
fn silence_over_the_whole_recording_keeps_nothing() {
    assert_eq!(filter_segments(&[silence(0, 7 * S)], 7 * S), vec![]);
}

#[test]
fn abutting_silences_leave_nothing_between_them() {
    let events = [silence(0, 2 * S), silence(2 * S, 5 * S)];
    assert_eq!(filter_segments(&events, 9 * S), vec![keep(5 * S, 9 * S)]);
}

#[test]
fn gaps_between_silences_are_kept_in_order() {
    let events = [silence(0, 2 * S), silence(10 * S, 12 * S), silence(20 * S, 21 * S)];
    assert_eq!(
        filter_segments(&events, 100 * S),
        vec![keep(2 * S, 10 * S), keep(12 * S, 20 * S), keep(21 * S, 100 * S)]
    );
}

#[test]
fn kept_and_silent_stretches_tile_the_recording() {
    let events = [silence(0, 3), silence(5, 5), silence(5, 8), silence(11, 14)];
    let total = 20;
    let kept = filter_segments(&events, total);
    for segment in &kept {
        assert!(segment.start < segment.end && segment.end <= total);
    }
    for t in 0..total {
        let in_keep = kept.iter().filter(|k| k.start <= t && t < k.end).count();
        let in_silence = events.iter().filter(|e| e.start <= t && t < e.end).count();
        assert_eq!(in_keep + in_silence, 1);
    }
}

#[test]
fn the_stretch_before_the_first_silence_is_kept_once() {
    let events = [silence(10 * S, 12 * S)];
    assert_eq!(
        filter_segments(&events, 100 * S),
        vec![keep(0, 10 * S), keep(12 * S, 100 * S)]
    );
}

#[test]
fn kept_stretches_add_up_to_the_sound() {
    let events = [silence(10 * S, 12 * S)];
    let kept = filter_segments(&events, 100 * S);
    let sum: u64 = kept.iter().map(|k| k.end - k.start).sum();
    assert_eq!(sum, 98 * S);
    assert!(kept.len() <= events.len() + 1);
}

#[test]
fn silence_up_to_the_end_leaves_no_last_stretch() {
    let events = [silence(0, S), silence(4 * S, 6 * S)];
    assert_eq!(filter_segments(&events, 6 * S), vec![keep(S, 4 * S)]);
}

#[test]
fn silence_past_the_end_leaves_no_last_stretch() {
    let events = [silence(0, 8 * S)];
    assert_eq!(filter_segments(&events, 5 * S), vec![]);
}

#[test]
fn overlapping_silences_extend_the_cut() {
    let events = [silence(0, 5 * S), silence(3 * S, 4 * S), silence(6 * S, 7 * S)];
    assert_eq!(
        filter_segments(&events, 7 * S),
        vec![keep(4 * S, 6 * S)]
    );
}

#[test]
fn every_instant_is_kept_or_silent_with_sound_at_the_start() {
    let events = [silence(4, 6), silence(6, 9), silence(12, 13)];
    let total = 15;
    let kept = filter_segments(&events, total);
    assert_eq!(kept, vec![keep(0, 4), keep(9, 12), keep(13, 15)]);
    for t in 0..total {
        let in_keep = kept.iter().filter(|k| k.start <= t && t < k.end).count();
        let in_silence = events.iter().filter(|e| e.start <= t && t < e.end).count();
        assert_eq!(in_keep + in_silence, 1);
    }
    for pair in kept.windows(2) {
        assert!(pair[0].end <= pair[1].start);
    }
}
