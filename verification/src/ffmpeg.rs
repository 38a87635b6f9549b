//! The run of the media tool, step by step: which command line is issued
//! next, and what follows from how the last one ended.
//!
//! The caller runs the tool and touches the file system. It hands each
//! outcome to the pipeline and is told what to do next.

use vstd::prelude::*;
use crate::names::{
    base_name, chosen_extension, int_text, joined, manifest, manifest_path, manifest_text,
    media_extension, output_name, output_path, push_int, push_seconds, seconds_text,
    segment_name, segment_path, texts, without_spaces, MANIFEST_NAME,
};
use crate::segments::keep_segments;
use crate::text::{push_str, string_of};
use crate::utils::{
    clock_text, format_time, parse_silence_events, parse_total_duration, report_outcome,
    rounded_millis, total_duration, PatternError,
};

pub use crate::segments::filter_segments;
pub use crate::segments::KeepSegment;
pub use crate::segments::SilenceEvent;

verus! {

/// The name of the media tool.
pub const PROGRAM: &'static str = "ffmpeg";

/// Why a run ended early.
#[derive(Debug, Clone, Copy, PartialEq, Eq, Structural)]
pub enum Failure {
    /// The detecting run of the tool failed.
    Detection,
    /// The report of the detecting run could not be read.
    Report(PatternError),
    /// The list for the joining step could not be created.
    Manifest,
    /// The joining run of the tool failed.
    Merge,
}

/// Where a run stands.
#[derive(Debug, Clone, Copy, PartialEq, Eq, Structural)]
pub enum Stage {
    /// The detecting run of the tool is under way.
    Detecting,
    /// The output directory and the list for the joining step are being made.
    Preparing,
    /// The kept stretch at the cursor is being extracted.
    Extracting,
    /// The joining run of the tool is under way.
    Merging,
    /// The output is written; what is left is to remove the other files.
    Finished,
    /// The run has ended early.
    Failed(Failure),
}

/// The state of one run.
#[derive(Debug)]
pub struct Pipeline {
    /// The path of the recording.
    pub file_path: String,
    /// The directory that the output is written to.
    pub out_path: String,
    /// The base of the names of the files that are written.
    pub base: String,
    /// The extension of the files that are written.
    pub extension: String,
    pub stage: Stage,
    /// The silences that the detector reported.
    pub events: Vec<SilenceEvent>,
    /// The length of the recording, zero where the report gave none.
    pub total_duration: u64,
    /// The stretches to keep, in the order in which they are extracted.
    pub segments: Vec<KeepSegment>,
    /// The index of the stretch that is extracted next.
    pub cursor: usize,
    /// The files extracted so far, in the order of their stretches.
    pub manifest: Vec<String>,
}

/// What the caller is to do next.
#[derive(Debug, PartialEq, Eq)]
pub enum Action {
    /// Run the tool with `args` and report whether it succeeded, with what
    /// it wrote to its error stream.
    Detect { args: Vec<String> },
    /// Create the directory `dir` if it is missing, then the empty file
    /// `manifest_path`, and report whether the file was created.
    Prepare { dir: String, manifest_path: String },
    /// Run the tool with `args`, which writes the file `output`, and report
    /// the canonical path of that file, or nothing where the run failed.
    Extract { args: Vec<String>, output: String },
    /// Write `manifest` to the file `manifest_path`, run the tool with
    /// `args`, which writes the file `output`, and report whether it succeeded.
    Concat { manifest_path: String, manifest: String, args: Vec<String>, output: String },
    /// Remove every regular file in `dir` but `keep`.
    Cleanup { dir: String, keep: String },
    /// Nothing is left to do.
    Stop,
}

/// How the caller's last step ended.
#[derive(Debug)]
pub enum Event {
    /// The detecting run ended; `stderr` is what it wrote to its error stream.
    Detected { success: bool, stderr: String },
    /// The directory and the list were made, or the list was not.
    Prepared { manifest_created: bool },
    /// An extracting run ended; `path` is the canonical path of the file it
    /// wrote, or nothing where it failed.
    Trimmed { path: Option<String> },
    /// The joining run ended.
    Merged { success: bool },
}

/// A pipeline with its texts as sequences of characters.
pub struct PipelineView {
    pub file_path: Seq<char>,
    pub out_path: Seq<char>,
    pub base: Seq<char>,
    pub extension: Seq<char>,
    pub stage: Stage,
    pub events: Seq<SilenceEvent>,
    pub total_duration: u64,
    pub segments: Seq<KeepSegment>,
    pub cursor: int,
    pub manifest: Seq<Seq<char>>,
}

/// An action with its texts as sequences of characters.
pub enum ActionView {
    Detect { args: Seq<Seq<char>> },
    Prepare { dir: Seq<char>, manifest_path: Seq<char> },
    Extract { args: Seq<Seq<char>>, output: Seq<char> },
    Concat {
        manifest_path: Seq<char>,
        manifest: Seq<char>,
        args: Seq<Seq<char>>,
        output: Seq<char>,
    },
    Cleanup { dir: Seq<char>, keep: Seq<char> },
    Stop,
}

impl View for Pipeline {
    type V = PipelineView;

    open spec fn view(&self) -> PipelineView {
        PipelineView {
            file_path: self.file_path@,
            out_path: self.out_path@,
            base: self.base@,
            extension: self.extension@,
            stage: self.stage,
            events: self.events@,
            total_duration: self.total_duration,
            segments: self.segments@,
            cursor: self.cursor as int,
            manifest: texts(self.manifest@),
        }
    }
}

impl View for Action {
    type V = ActionView;

    open spec fn view(&self) -> ActionView {
        match self {
            Action::Detect { args } => ActionView::Detect { args: texts(args@) },
            Action::Prepare { dir, manifest_path } => ActionView::Prepare {
                dir: dir@,
                manifest_path: manifest_path@,
            },
            Action::Extract { args, output } => ActionView::Extract {
                args: texts(args@),
                output: output@,
            },
            Action::Concat { manifest_path, manifest, args, output } => ActionView::Concat {
                manifest_path: manifest_path@,
                manifest: manifest@,
                args: texts(args@),
                output: output@,
            },
            Action::Cleanup { dir, keep } => ActionView::Cleanup { dir: dir@, keep: keep@ },
            Action::Stop => ActionView::Stop,
        }
    }
}

/// The filter that makes the tool report silences: those below `silence`
/// decibels that last `minimum` microseconds or longer.
pub open spec fn detect_filter(silence: i32, minimum: u64) -> Seq<char> {
    "silencedetect=n="@ + int_text(silence as int) + "dB:d="@ + seconds_text(minimum as nat)
}

/// The arguments of the detecting run: the recording as input, the
/// silence filter on its sound, and no output.
pub open spec fn detect_args(file: Seq<char>, silence: i32, minimum: u64) -> Seq<Seq<char>> {
    seq!["-i"@, file, "-af"@, detect_filter(silence, minimum), "-f"@, "null"@, "-"@]
}

/// The arguments of the run that extracts the stretch from `start` to `end`
/// of the recording into the file `output`, without encoding it anew.
pub open spec fn extract_args(file: Seq<char>, start: u64, end: u64, output: Seq<char>) -> Seq<
    Seq<char>,
> {
    seq![
        "-ss"@,
        clock_text(rounded_millis(start as nat)),
        "-to"@,
        clock_text(rounded_millis(end as nat)),
        "-i"@,
        file,
        "-c"@,
        "copy"@,
        output,
    ]
}

/// The arguments of the run that joins the files listed in the file
/// `manifest_path` into the file `output`, without encoding them anew.
pub open spec fn concat_args(manifest_path: Seq<char>, output: Seq<char>) -> Seq<Seq<char>> {
    seq!["-f"@, "concat"@, "-safe"@, "0"@, "-i"@, manifest_path, "-c"@, "copy"@, output]
}

/// Builds the arguments of the detecting run.
pub fn detect_command(file: &str, silence: i32, minimum: u64) -> (args: Vec<String>)
    ensures
        texts(args@) == detect_args(file@, silence, minimum),
{
    let mut filter: Vec<char> = Vec::new();
    push_str(&mut filter, "silencedetect=n=");
    push_int(&mut filter, silence);
    push_str(&mut filter, "dB:d=");
    push_seconds(&mut filter, minimum);
    assert(filter@ =~= detect_filter(silence, minimum));
    let mut args: Vec<String> = Vec::new();
    args.push("-i".to_owned());
    args.push(file.to_owned());
    args.push("-af".to_owned());
    args.push(string_of(filter.as_slice()));
    args.push("-f".to_owned());
    args.push("null".to_owned());
    args.push("-".to_owned());
    assert(texts(args@) =~= detect_args(file@, silence, minimum));
    args
}

/// Builds the arguments of the run that extracts one stretch.
pub fn extract_command(file: &str, start: u64, end: u64, output: &str) -> (args: Vec<String>)
    ensures
        texts(args@) == extract_args(file@, start, end, output@),
{
    let mut args: Vec<String> = Vec::new();
    args.push("-ss".to_owned());
    args.push(format_time(start));
    args.push("-to".to_owned());
    args.push(format_time(end));
    args.push("-i".to_owned());
    args.push(file.to_owned());
    args.push("-c".to_owned());
    args.push("copy".to_owned());
    args.push(output.to_owned());
    assert(texts(args@) =~= extract_args(file@, start, end, output@));
    args
}

/// Builds the arguments of the joining run.
pub fn concat_command(manifest_path: &str, output: &str) -> (args: Vec<String>)
    ensures
        texts(args@) == concat_args(manifest_path@, output@),
{
    let mut args: Vec<String> = Vec::new();
    args.push("-f".to_owned());
    args.push("concat".to_owned());
    args.push("-safe".to_owned());
    args.push("0".to_owned());
    args.push("-i".to_owned());
    args.push(manifest_path.to_owned());
    args.push("-c".to_owned());
    args.push("copy".to_owned());
    args.push(output.to_owned());
    assert(texts(args@) =~= concat_args(manifest_path@, output@));
    args
}

/// The path of the file that holds the stretch `segment`.
pub open spec fn segment_output(p: PipelineView, segment: KeepSegment) -> Seq<char> {
    joined(p.out_path, segment_name(p.base, segment.start, segment.end, p.extension))
}

/// The path of the final output.
pub open spec fn final_output(p: PipelineView) -> Seq<char> {
    joined(p.out_path, output_name(p.base, p.extension))
}

/// The action that extracts the stretch at the cursor.
pub open spec fn extract_step(p: PipelineView) -> ActionView {
    let segment = p.segments[p.cursor];
    ActionView::Extract {
        args: extract_args(p.file_path, segment.start, segment.end, segment_output(p, segment)),
        output: segment_output(p, segment),
    }
}

/// The action that joins the files extracted so far, in their order.
pub open spec fn concat_step(p: PipelineView) -> ActionView {
    ActionView::Concat {
        manifest_path: joined(p.out_path, MANIFEST_NAME@),
        manifest: manifest_text(p.manifest),
        args: concat_args(joined(p.out_path, MANIFEST_NAME@), final_output(p)),
        output: final_output(p),
    }
}

/// The pipeline `p` ended early for the reason `why`.
pub open spec fn failed(p: PipelineView, why: Failure) -> PipelineView {
    PipelineView { stage: Stage::Failed(why), ..p }
}

/// What follows once the cursor is set: the stretch at the cursor is
/// extracted, or behind the last stretch, the extracted files are joined.
pub open spec fn proceed(p: PipelineView) -> (PipelineView, ActionView) {
    if 0 <= p.cursor < p.segments.len() {
        (PipelineView { stage: Stage::Extracting, ..p }, extract_step(p))
    } else {
        (PipelineView { stage: Stage::Merging, ..p }, concat_step(p))
    }
}

/// What follows a detecting run that reported `events` and `total_duration`:
/// the stretches to keep are those that `keep_segments` gives, and the
/// output directory and the list are made next.
pub open spec fn planned(p: PipelineView, events: Seq<SilenceEvent>, total_duration: u64) -> (
    PipelineView,
    ActionView,
) {
    if p.stage == Stage::Detecting {
        (
            PipelineView {
                stage: Stage::Preparing,
                events,
                total_duration,
                segments: keep_segments(events, total_duration),
                cursor: 0,
                manifest: Seq::empty(),
                ..p
            },
            ActionView::Prepare {
                dir: p.out_path,
                manifest_path: joined(p.out_path, MANIFEST_NAME@),
            },
        )
    } else {
        (p, ActionView::Stop)
    }
}

/// What follows the making of the directory and the list: without the list
/// the run ends; with it the first stretch is extracted, or with no
/// stretch to keep, the empty list is joined.
pub open spec fn trim_begun(p: PipelineView, manifest_created: bool) -> (
    PipelineView,
    ActionView,
) {
    if p.stage != Stage::Preparing {
        (p, ActionView::Stop)
    } else if !manifest_created {
        (failed(p, Failure::Manifest), ActionView::Stop)
    } else {
        proceed(PipelineView { cursor: 0, manifest: Seq::empty(), ..p })
    }
}

/// What follows an extracting run: the file it wrote, if it wrote one, goes
/// to the end of the list, and the cursor moves on to the next stretch.
pub open spec fn segment_done(p: PipelineView, path: Option<Seq<char>>) -> (
    PipelineView,
    ActionView,
) {
    if p.stage == Stage::Extracting && 0 <= p.cursor < p.segments.len() {
        proceed(
            PipelineView {
                cursor: p.cursor + 1,
                manifest: match path {
                    Some(file) => p.manifest.push(file),
                    None => p.manifest,
                },
                ..p
            },
        )
    } else {
        (p, ActionView::Stop)
    }
}

/// What follows the joining run: after a success every file in the output
/// directory but the final output is removed; after a failure the run ends
/// and the files stay.
pub open spec fn merged(p: PipelineView, success: bool) -> (PipelineView, ActionView) {
    if p.stage != Stage::Merging {
        (p, ActionView::Stop)
    } else if success {
        (
            PipelineView { stage: Stage::Finished, ..p },
            ActionView::Cleanup { dir: p.out_path, keep: final_output(p) },
        )
    } else {
        (failed(p, Failure::Merge), ActionView::Stop)
    }
}

/// The total duration that a report gives, zero where it gives none.
pub open spec fn duration_or_zero(report: Seq<char>) -> u64 {
    match total_duration(report) {
        Some(micros) => micros,
        None => 0,
    }
}

impl Pipeline {
    /// A run on the recording `file_path` that has just issued its
    /// detecting command. `stem` and `extension` are those of the
    /// recording's file name.
    pub fn new(file_path: String, out_path: String, stem: &str, extension: Option<&str>) -> (p:
        Pipeline)
        ensures
            p@ == (PipelineView {
                file_path: file_path@,
                out_path: out_path@,
                base: without_spaces(stem@),
                extension: chosen_extension(
                    match extension {
                        Some(own) => Some(own@),
                        None => None,
                    },
                ),
                stage: Stage::Detecting,
                events: Seq::empty(),
                total_duration: 0,
                segments: Seq::empty(),
                cursor: 0,
                manifest: Seq::empty(),
            }),
            well_formed(p@),
    {
        let p = Pipeline {
            file_path,
            out_path,
            base: base_name(stem),
            extension: media_extension(extension),
            stage: Stage::Detecting,
            events: Vec::new(),
            total_duration: 0,
            segments: Vec::new(),
            cursor: 0,
            manifest: Vec::new(),
        };
        assert(texts(p.manifest@) =~= Seq::<Seq<char>>::empty());
        p
    }

    /// Sets the stage from the cursor and builds the action that goes with it.
    fn proceed(&mut self) -> (action: Action)
        ensures
            (final(self)@, action@) == proceed(old(self)@),
    {
        if self.cursor < self.segments.len() {
            self.stage = Stage::Extracting;
            let segment = self.segments[self.cursor];
            let output = segment_path(
                self.out_path.as_str(),
                self.base.as_str(),
                segment.start,
                segment.end,
                self.extension.as_str(),
            );
            let args = extract_command(
                self.file_path.as_str(),
                segment.start,
                segment.end,
                output.as_str(),
            );
            Action::Extract { args, output }
        } else {
            self.stage = Stage::Merging;
            let list = manifest_path(self.out_path.as_str());
            let output = output_path(
                self.out_path.as_str(),
                self.base.as_str(),
                self.extension.as_str(),
            );
            let args = concat_command(list.as_str(), output.as_str());
            Action::Concat {
                manifest_path: list,
                manifest: manifest(&self.manifest),
                args,
                output,
            }
        }
    }

    /// Takes in what the detecting run reported and plans the rest of the
    /// run. Outside the detecting stage the pipeline stays as it is and the
    /// action is `Stop`.
    pub fn plan(&mut self, events: Vec<SilenceEvent>, total_duration: u64) -> (action: Action)
        ensures
            (final(self)@, action@) == planned(old(self)@, events@, total_duration),
    {
        if self.stage != Stage::Detecting {
            return Action::Stop;
        }
        self.segments = filter_segments(events.as_slice(), total_duration);
        self.events = events;
        self.total_duration = total_duration;
        self.cursor = 0;
        self.manifest = Vec::new();
        self.stage = Stage::Preparing;
        assert(texts(self.manifest@) =~= Seq::<Seq<char>>::empty());
        Action::Prepare {
            dir: self.out_path.clone(),
            manifest_path: manifest_path(self.out_path.as_str()),
        }
    }

    /// Takes in how the caller's last step ended and says what to do next.
    /// An event that does not belong to the stage leaves the pipeline as it
    /// is and gives `Stop`.
    pub fn advance(&mut self, event: Event) -> (action: Action)
        ensures
            match event {
                Event::Detected { success, stderr } => (final(self)@, action@) == detected(
                    old(self)@,
                    success,
                    stderr@,
                ),
                Event::Prepared { manifest_created } => (final(self)@, action@) == trim_begun(
                    old(self)@,
                    manifest_created,
                ),
                Event::Trimmed { path } => (final(self)@, action@) == segment_done(
                    old(self)@,
                    match path {
                        Some(file) => Some(file@),
                        None => None,
                    },
                ),
                Event::Merged { success } => (final(self)@, action@) == merged(
                    old(self)@,
                    success,
                ),
            },
    {
        match event {
            Event::Detected { success, stderr } => detect_silence(self, success, stderr.as_str()),
            Event::Prepared { manifest_created } => trim_silence(self, manifest_created),
            Event::Trimmed { path } => segment_trimmed(self, path),
            Event::Merged { success } => merge_segments(self, success),
        }
    }
}

/// What follows a detecting run. After a failed run the pipeline has
/// failed. After a successful one the report is read: where that gives the
/// silences, the pipeline goes on as `planned` says, with them and with the
/// duration that the report holds; where it gives an error, the pipeline has
/// failed with that error.
pub open spec fn detected(p: PipelineView, success: bool, stderr: Seq<char>) -> (
    PipelineView,
    ActionView,
) {
    if p.stage != Stage::Detecting {
        (p, ActionView::Stop)
    } else if !success {
        (failed(p, Failure::Detection), ActionView::Stop)
    } else {
        match report_outcome(stderr) {
            Ok(events) => planned(p, events, duration_or_zero(stderr)),
            Err(e) => (failed(p, Failure::Report(e)), ActionView::Stop),
        }
    }
}

/// Takes in how the detecting run ended. `stderr` is what the tool wrote to
/// its error stream: the report that holds the silences and the duration.
pub fn detect_silence(pipeline: &mut Pipeline, success: bool, stderr: &str) -> (action: Action)
    ensures
        (final(pipeline)@, action@) == detected(old(pipeline)@, success, stderr@),
{
    if pipeline.stage != Stage::Detecting {
        return Action::Stop;
    }
    if !success {
        pipeline.stage = Stage::Failed(Failure::Detection);
        return Action::Stop;
    }
    let total = match parse_total_duration(stderr) {
        Some(micros) => micros,
        None => 0,
    };
    match parse_silence_events(stderr) {
        Ok(events) => pipeline.plan(events, total),
        Err(e) => {
            pipeline.stage = Stage::Failed(Failure::Report(e));
            Action::Stop
        },
    }
}

/// Starts the extraction once the output directory and the list are made.
pub fn trim_silence(pipeline: &mut Pipeline, manifest_created: bool) -> (action: Action)
    ensures
        (final(pipeline)@, action@) == trim_begun(old(pipeline)@, manifest_created),
{
    if pipeline.stage != Stage::Preparing {
        return Action::Stop;
    }
    if !manifest_created {
        pipeline.stage = Stage::Failed(Failure::Manifest);
        return Action::Stop;
    }
    pipeline.cursor = 0;
    pipeline.manifest = Vec::new();
    assert(texts(pipeline.manifest@) =~= Seq::<Seq<char>>::empty());
    pipeline.proceed()
}

/// Takes in how the extraction of the stretch at the cursor ended: `path`
/// is the canonical path of the file that was written, or nothing where the
/// tool failed. A failure leaves the stretch out and the run goes on.
pub fn segment_trimmed(pipeline: &mut Pipeline, path: Option<String>) -> (action: Action)
    ensures
        (final(pipeline)@, action@) == segment_done(
            old(pipeline)@,
            match path {
                Some(file) => Some(file@),
                None => None,
            },
        ),
{
    if pipeline.stage != Stage::Extracting || pipeline.cursor >= pipeline.segments.len() {
        return Action::Stop;
    }
    let ghost before = texts(pipeline.manifest@);
    if let Some(file) = path {
        pipeline.manifest.push(file);
        assert(texts(pipeline.manifest@) =~= before.push(file@));
    }
    pipeline.cursor = pipeline.cursor + 1;
    pipeline.proceed()
}

/// Takes in how the joining run ended.
pub fn merge_segments(pipeline: &mut Pipeline, success: bool) -> (action: Action)
    ensures
        (final(pipeline)@, action@) == merged(old(pipeline)@, success),
{
    if pipeline.stage != Stage::Merging {
        return Action::Stop;
    }
    if success {
        pipeline.stage = Stage::Finished;
        Action::Cleanup {
            dir: pipeline.out_path.clone(),
            keep: output_path(
                pipeline.out_path.as_str(),
                pipeline.base.as_str(),
                pipeline.extension.as_str(),
            ),
        }
    } else {
        pipeline.stage = Stage::Failed(Failure::Merge);
        Action::Stop
    }
}

/// What holds of a pipeline at every step of a run: the stretches are those
/// that the reported silences leave, the cursor lies within them, on a
/// stretch while one is extracted and behind the last once they are joined,
/// and no more files are listed than stretches were passed.
pub open spec fn well_formed(p: PipelineView) -> bool {
    &&& p.segments == keep_segments(p.events, p.total_duration)
    &&& 0 <= p.cursor <= p.segments.len()
    &&& p.manifest.len() <= p.cursor
    &&& p.stage == Stage::Extracting ==> p.cursor < p.segments.len()
    &&& (p.stage == Stage::Merging || p.stage == Stage::Finished) ==> p.cursor
        == p.segments.len()
}

/// A run starts well formed, and every step keeps it so.
pub proof fn lemma_steps_keep_well_formed(
    p: PipelineView,
    events: Seq<SilenceEvent>,
    total_duration: u64,
    flag: bool,
    path: Option<Seq<char>>,
    why: Failure,
    stderr: Seq<char>,
)
    requires
        well_formed(p),
    ensures
        well_formed(detected(p, flag, stderr).0),
        well_formed(planned(p, events, total_duration).0),
        well_formed(trim_begun(p, flag).0),
        well_formed(segment_done(p, path).0),
        well_formed(merged(p, flag).0),
        p.stage == Stage::Detecting ==> well_formed(failed(p, why)),
{
}

/// The files that a series of extractions wrote, in order: each outcome is
/// the path of a file, or nothing where the extraction failed.
pub open spec fn written(outcomes: Seq<Option<Seq<char>>>) -> Seq<Seq<char>>
    decreases outcomes.len(),
{
    if outcomes.len() == 0 {
        Seq::empty()
    } else {
        match outcomes.last() {
            Some(file) => written(outcomes.drop_last()).push(file),
            None => written(outcomes.drop_last()),
        }
    }
}

/// The pipeline after the extractions that started from `p` ended with
/// `outcomes`, one after the other.
pub open spec fn after_extractions(p: PipelineView, outcomes: Seq<Option<Seq<char>>>) -> (
    PipelineView,
    ActionView,
)
    decreases outcomes.len(),
{
    if outcomes.len() == 0 {
        trim_begun(p, true)
    } else {
        segment_done(after_extractions(p, outcomes.drop_last()).0, outcomes.last())
    }
}

/// Stretches are extracted in their order, and the list names the files in
/// that order. After the list is made and the first `outcomes.len()`
/// extractions have ended, the cursor stands behind as many stretches, the
/// list holds the files that were written, in the order of their stretches,
/// and the next action extracts the stretch at the cursor, or behind the
/// last stretch joins the files of the list. A failed extraction leaves its
/// stretch out and stops nothing.
pub proof fn lemma_extraction_keeps_order(p: PipelineView, outcomes: Seq<Option<Seq<char>>>)
    requires
        p.stage == Stage::Preparing,
        outcomes.len() <= p.segments.len(),
    ensures
        ({
            let (q, action) = after_extractions(p, outcomes);
            &&& q == PipelineView {
                stage: q.stage,
                cursor: outcomes.len() as int,
                manifest: written(outcomes),
                ..p
            }
            &&& outcomes.len() < p.segments.len() ==> q.stage == Stage::Extracting && action
                == extract_step(q)
            &&& outcomes.len() == p.segments.len() ==> q.stage == Stage::Merging && action
                == concat_step(q)
        }),
    decreases outcomes.len(),
{
    if outcomes.len() > 0 {
        lemma_extraction_keeps_order(p, outcomes.drop_last());
    }
}

} // verus!
