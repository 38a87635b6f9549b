//! Silent stretches, kept stretches, and the scan that turns one into the other.

use vstd::prelude::*;

verus! {

/// One silent stretch of the recording, as the detector reported it.
/// All three fields are in microseconds.
#[derive(Debug, Clone, Copy, PartialEq, Eq, Structural)]
pub struct SilenceEvent {
    pub start: u64,
    pub end: u64,
    pub duration: u64,
}

/// One stretch of the recording that stays in the output, in microseconds.
#[derive(Debug, Clone, Copy, PartialEq, Eq, Structural)]
pub struct KeepSegment {
    pub start: u64,
    pub end: u64,
}

/// Where the exclusion window ends when the scan reaches event `i`:
/// at zero before the first event, at the end of the previous event after it.
pub open spec fn window_end(events: Seq<SilenceEvent>, i: int) -> u64 {
    if i <= 0 {
        0
    } else {
        events[i - 1].end
    }
}

/// What the scan emits on reaching event `i`: the gap between the exclusion
/// window and the event, or nothing where the event starts inside the window.
pub open spec fn gap_before(events: Seq<SilenceEvent>, i: int) -> Seq<KeepSegment> {
    if window_end(events, i) < events[i].start {
        seq![KeepSegment { start: window_end(events, i), end: events[i].start }]
    } else {
        Seq::empty()
    }
}

/// Everything the scan has emitted once it has passed all of `events`.
pub open spec fn scanned(events: Seq<SilenceEvent>) -> Seq<KeepSegment>
    decreases events.len(),
{
    if events.len() == 0 {
        Seq::empty()
    } else {
        scanned(events.drop_last()) + gap_before(events, events.len() - 1)
    }
}

/// The stretch behind the last event, up to the end of the recording.
pub open spec fn trailing(events: Seq<SilenceEvent>, total_duration: u64) -> Seq<KeepSegment> {
    if window_end(events, events.len() as int) < total_duration {
        seq![
            KeepSegment { start: window_end(events, events.len() as int), end: total_duration },
        ]
    } else {
        Seq::empty()
    }
}

/// The kept stretches for a list of silent stretches and a total duration:
/// every gap that is not empty, once and in order. The first gap runs from
/// zero to the start of the first silence, each later one from the end of a
/// silence to the start of the next, and the last from the end of the last
/// silence to the end of the recording.
pub open spec fn keep_segments(events: Seq<SilenceEvent>, total_duration: u64) -> Seq<
    KeepSegment,
> {
    scanned(events) + trailing(events, total_duration)
}

/// Computes the stretches to keep, in one pass over the silences. For each
/// silence the pass emits the gap between the end of the silence before it
/// (zero for the first) and its start, where that gap is not empty. Last
/// comes the stretch from the end of the last silence to `total_duration`,
/// where that is not empty. The silences are taken in the order given and
/// are not sorted.
pub fn filter_segments(events: &[SilenceEvent], total_duration: u64) -> (keep: Vec<KeepSegment>)
    ensures
        keep@ == keep_segments(events@, total_duration),
        keep.len() <= events.len() + 1,
        forall|k: int| 0 <= k < keep.len() ==> (#[trigger] keep[k]).start < keep[k].end,
{
    let mut keep: Vec<KeepSegment> = Vec::new();
    let mut last_end: u64 = 0;
    let mut i: usize = 0;
    while i < events.len()
        invariant
            i <= events.len(),
            last_end == window_end(events@, i as int),
            keep@ == scanned(events@.take(i as int)),
        decreases events.len() - i,
    {
        let event = events[i];
        proof {
            let prefix = events@.take(i + 1);
            assert(prefix.drop_last() == events@.take(i as int));
            assert(gap_before(prefix, i as int) == gap_before(events@, i as int));
        }
        if last_end < event.start {
            keep.push(KeepSegment { start: last_end, end: event.start });
        }
        last_end = event.end;
        i += 1;
    }
    assert(events@.take(i as int) == events@);
    if last_end < total_duration {
        keep.push(KeepSegment { start: last_end, end: total_duration });
    }
    proof {
        lemma_kept_stretches_are_not_empty(events@, total_duration);
    }
    keep
}

/// No kept stretch is empty, and there is at most one more of them than
/// there are silences, whatever the silences are.
pub proof fn lemma_kept_stretches_are_not_empty(events: Seq<SilenceEvent>, total_duration: u64)
    ensures
        keep_segments(events, total_duration).len() <= events.len() + 1,
        forall|k: int|
            0 <= k < keep_segments(events, total_duration).len() ==> (#[trigger] keep_segments(
                events,
                total_duration,
            )[k]).start < keep_segments(events, total_duration)[k].end,
{
    let keep = keep_segments(events, total_duration);
    let inner = scanned(events);
    lemma_scanned_stretches_are_not_empty(events);
    assert forall|k: int| 0 <= k < keep.len() implies (#[trigger] keep[k]).start
        < keep[k].end by {
        if k < inner.len() {
            assert(keep[k] == inner[k]);
        } else {
            assert(keep[k] == trailing(events, total_duration)[k - inner.len()]);
        }
    }
}

proof fn lemma_scanned_stretches_are_not_empty(events: Seq<SilenceEvent>)
    ensures
        scanned(events).len() <= events.len(),
        forall|k: int|
            0 <= k < scanned(events).len() ==> (#[trigger] scanned(events)[k]).start < scanned(
                events,
            )[k].end,
    decreases events.len(),
{
    if events.len() > 0 {
        lemma_scanned_stretches_are_not_empty(events.drop_last());
        let before = scanned(events.drop_last());
        assert forall|k: int| 0 <= k < scanned(events).len() implies (#[trigger] scanned(
            events,
        )[k]).start < scanned(events)[k].end by {
            if k < before.len() {
                assert(scanned(events)[k] == before[k]);
            }
        }
    }
}

/// Whether the silent stretches come in the order of time and do not overlap:
/// none ends before it starts, and each starts no earlier than the one before
/// it ends.
pub open spec fn chronological(events: Seq<SilenceEvent>) -> bool {
    &&& forall|i: int| 0 <= i < events.len() ==> (#[trigger] events[i]).start <= events[i].end
    &&& forall|i: int, j: int|
        0 <= i < j < events.len() ==> (#[trigger] events[i]).end <= (#[trigger] events[j]).start
}

/// Whether the instant `t` lies in one of the silent stretches.
pub open spec fn in_silence(events: Seq<SilenceEvent>, t: int) -> bool {
    exists|i: int| 0 <= i < events.len() && (#[trigger] events[i]).start <= t < events[i].end
}

/// Whether the instant `t` lies in one of the kept stretches.
pub open spec fn in_keep(keep: Seq<KeepSegment>, t: int) -> bool {
    exists|i: int| 0 <= i < keep.len() && (#[trigger] keep[i]).start <= t < keep[i].end
}

/// Whether the kept stretches are non-empty, end by `bound`, come in the
/// order of time and do not overlap.
pub open spec fn orderly(keep: Seq<KeepSegment>, bound: int) -> bool {
    &&& forall|i: int|
        0 <= i < keep.len() ==> (#[trigger] keep[i]).start < keep[i].end && keep[i].end <= bound
    &&& forall|i: int, j: int|
        0 <= i < j < keep.len() ==> (#[trigger] keep[i]).end <= (#[trigger] keep[j]).start
}

proof fn lemma_scan_tiles_prefix(events: Seq<SilenceEvent>, n: int)
    requires
        chronological(events),
        0 <= n <= events.len(),
    ensures
        orderly(scanned(events.take(n)), window_end(events, n) as int),
        n > 0 ==> forall|i: int|
            0 <= i < scanned(events.take(n)).len() ==> (#[trigger] scanned(
                events.take(n),
            )[i]).end <= events[n - 1].start,
        forall|i: int| 0 <= i < n ==> (#[trigger] events[i]).end <= window_end(events, n),
        forall|t: int|
            0 <= t < window_end(events, n) ==> (in_keep(scanned(events.take(n)), t) != in_silence(
                events.take(n),
                t,
            )),
    decreases n,
{
    if n > 0 {
        lemma_scan_tiles_prefix(events, n - 1);
        let before = events.take(n - 1);
        let now = events.take(n);
        let event = events[n - 1];
        let w = window_end(events, n - 1);
        let old_keep = scanned(before);
        let new_keep = scanned(now);
        assert(now.drop_last() == before);
        assert(gap_before(now, n - 1) == gap_before(events, n - 1));
        assert(new_keep == old_keep + gap_before(events, n - 1));
        assert(w <= event.start) by {
            if n > 1 {
                assert(events[n - 2].end <= events[n - 1].start);
            }
        }
        assert forall|t: int| 0 <= t < window_end(events, n) implies (in_keep(new_keep, t)
            != in_silence(now, t)) by {
            if t < w {
                assert(in_keep(old_keep, t) != in_silence(before, t));
                if in_keep(old_keep, t) {
                    let k = choose|k: int|
                        0 <= k < old_keep.len() && (#[trigger] old_keep[k]).start <= t
                            < old_keep[k].end;
                    assert(new_keep[k] == old_keep[k]);
                    if in_silence(now, t) {
                        let i = choose|i: int|
                            0 <= i < now.len() && (#[trigger] now[i]).start <= t < now[i].end;
                        assert(i < n - 1);
                        assert(before[i] == now[i]);
                    }
                } else {
                    let i = choose|i: int|
                        0 <= i < before.len() && (#[trigger] before[i]).start <= t
                            < before[i].end;
                    assert(now[i] == before[i]);
                    if in_keep(new_keep, t) {
                        let k = choose|k: int|
                            0 <= k < new_keep.len() && (#[trigger] new_keep[k]).start <= t
                                < new_keep[k].end;
                        if k < old_keep.len() {
                            assert(old_keep[k] == new_keep[k]);
                        }
                    }
                }
            } else if t < event.start {
                assert(new_keep.last().start <= t < new_keep.last().end);
                if in_silence(now, t) {
                    let i = choose|i: int|
                        0 <= i < now.len() && (#[trigger] now[i]).start <= t < now[i].end;
                    if i < n - 1 {
                        assert(events[i].end <= w);
                    }
                }
            } else {
                assert(now[n - 1].start <= t < now[n - 1].end);
                if in_keep(new_keep, t) {
                    let k = choose|k: int|
                        0 <= k < new_keep.len() && (#[trigger] new_keep[k]).start <= t
                            < new_keep[k].end;
                    if k < old_keep.len() {
                        assert(old_keep[k] == new_keep[k]);
                    }
                }
            }
        }
        assert forall|i: int| 0 <= i < new_keep.len() implies (#[trigger] new_keep[i]).end
            <= event.start by {
            if i < old_keep.len() {
                assert(old_keep[i] == new_keep[i]);
            }
        }
        assert forall|i: int, j: int| 0 <= i < j < new_keep.len() implies (
        #[trigger] new_keep[i]).end <= (#[trigger] new_keep[j]).start by {
            assert(old_keep[i] == new_keep[i]);
            if j < old_keep.len() {
                assert(old_keep[j] == new_keep[j]);
            }
        }
        assert forall|i: int| 0 <= i < n implies (#[trigger] events[i]).end <= window_end(
            events,
            n,
        ) by {
            if i < n - 1 {
                assert(events[i].end <= events[n - 1].start);
            }
        }
    } else {
        assert(scanned(events.take(0)).len() == 0);
    }
}

/// Kept and silent stretches tile the recording. Where the silent stretches
/// come in the order of time without overlap and the last of them ends by
/// `total_duration`, the kept stretches are non-empty, lie within the
/// recording, come in the order of time and do not overlap, and every
/// instant of the recording lies either in a kept stretch or in a silent
/// one, never in both.
pub proof fn lemma_keep_and_silence_tile(events: Seq<SilenceEvent>, total_duration: u64)
    requires
        chronological(events),
        events.len() > 0 ==> events.last().end <= total_duration,
    ensures
        orderly(keep_segments(events, total_duration), total_duration as int),
        forall|t: int|
            0 <= t < total_duration ==> (in_keep(keep_segments(events, total_duration), t)
                != in_silence(events, t)),
{
    let n = events.len() as int;
    let keep = keep_segments(events, total_duration);
    let inner = scanned(events);
    let w = window_end(events, n);
    lemma_scan_tiles_prefix(events, n);
    assert(events.take(n) == events);
    assert forall|i: int| 0 <= i < keep.len() implies (#[trigger] keep[i]).start < keep[i].end
        && keep[i].end <= total_duration by {
        if i < inner.len() {
            assert(inner[i] == keep[i]);
        }
    }
    assert forall|i: int, j: int| 0 <= i < j < keep.len() implies (#[trigger] keep[i]).end <= (
    #[trigger] keep[j]).start by {
        assert(inner[i] == keep[i]);
        if j < inner.len() {
            assert(inner[j] == keep[j]);
        }
    }
    assert forall|t: int| 0 <= t < total_duration implies (in_keep(keep, t) != in_silence(
        events,
        t,
    )) by {
        if t < w {
            assert(in_keep(inner, t) != in_silence(events, t));
            if in_keep(inner, t) {
                let k = choose|k: int|
                    0 <= k < inner.len() && (#[trigger] inner[k]).start <= t < inner[k].end;
                assert(keep[k] == inner[k]);
            } else if in_keep(keep, t) {
                let k = choose|k: int|
                    0 <= k < keep.len() && (#[trigger] keep[k]).start <= t < keep[k].end;
                if k < inner.len() {
                    assert(inner[k] == keep[k]);
                }
            }
        } else {
            assert(keep.last().start <= t < keep.last().end);
            if in_silence(events, t) {
                let i = choose|i: int|
                    0 <= i < events.len() && (#[trigger] events[i]).start <= t < events[i].end;
                assert(events[i].end <= w);
            }
        }
    }
}

/// With no silence at all, a recording of positive length is kept whole.
pub proof fn lemma_no_silence_keeps_all(total_duration: u64)
    requires
        total_duration > 0,
    ensures
        keep_segments(Seq::empty(), total_duration) == seq![
            KeepSegment { start: 0, end: total_duration },
        ],
{
}

/// One silence that spans the whole recording leaves nothing to keep.
pub proof fn lemma_all_silence_keeps_nothing(total_duration: u64, duration: u64)
    ensures
        keep_segments(
            seq![SilenceEvent { start: 0, end: total_duration, duration }],
            total_duration,
        ) == Seq::<KeepSegment>::empty(),
{
    let events = seq![SilenceEvent { start: 0, end: total_duration, duration }];
    assert(events.drop_last() == Seq::<SilenceEvent>::empty());
    assert(scanned(events.drop_last()).len() == 0);
}

/// Where one silence starts at the instant at which the one before it ends,
/// the scan emits nothing on reaching it.
pub proof fn lemma_abutting_silences_leave_no_gap(events: Seq<SilenceEvent>, i: int)
    requires
        0 < i < events.len(),
        events[i - 1].end == events[i].start,
    ensures
        gap_before(events, i) == Seq::<KeepSegment>::empty(),
        scanned(events.take(i + 1)) == scanned(events.take(i)),
{
    let prefix = events.take(i + 1);
    assert(prefix.drop_last() == events.take(i));
    assert(gap_before(prefix, i) == gap_before(events, i));
}

} // verus!
