//! The parameters of a run, and its start.

use vstd::prelude::*;
use crate::ffmpeg::{
    detect_args, detect_command, well_formed, Action, ActionView, Pipeline, PipelineView, Stage,
};
use crate::names::{chosen_extension, without_spaces};

verus! {

/// The output directory where none is given: the current one.
pub const DEFAULT_OUT_PATH: &'static str = ".";

/// The loudness in decibels below which sound counts as silence, where none
/// is given.
pub const DEFAULT_SILENCE: i32 = -30;

/// The shortest silence that is cut, in microseconds, where none is given.
pub const DEFAULT_MINIMUM_SILENCE_DURATION: u64 = 500_000;

/// The parameters of a run.
#[derive(Debug)]
pub struct Args {
    /// The path of the recording.
    pub file_path: String,
    /// The directory that the output is written to.
    pub out_path: Option<String>,
    /// The loudness in decibels below which sound counts as silence.
    pub silence: i32,
    /// The shortest silence that is cut, in microseconds.
    pub minimum_silence_duration: u64,
}

/// The output directory of a run: the one given, else the current one.
pub open spec fn out_path_of(out_path: Option<String>) -> Seq<char> {
    match out_path {
        Some(dir) => dir@,
        None => DEFAULT_OUT_PATH@,
    }
}

/// Starts a run: returns its pipeline, in the detecting stage, and the
/// detecting command to issue. `stem` and `extension` are those of the file
/// name of the recording.
pub fn start_silcut(args: Args, stem: &str, extension: Option<&str>) -> (started: (
    Pipeline,
    Action,
))
    ensures
        started.0@ == (PipelineView {
            file_path: args.file_path@,
            out_path: out_path_of(args.out_path),
            base: without_spaces(stem@),
            extension: chosen_extension(
                match extension {
                    Some(own) => Some(own@),
                    None => None,
                },
            ),
            stage: Stage::Detecting,
            events: Seq::empty(),
            total_duration: 0,
            segments: Seq::empty(),
            cursor: 0,
            manifest: Seq::empty(),
        }),
        well_formed(started.0@),
        started.1@ == (ActionView::Detect {
            args: detect_args(args.file_path@, args.silence, args.minimum_silence_duration),
        }),
{
    let out_path = match args.out_path {
        Some(dir) => dir,
        None => DEFAULT_OUT_PATH.to_owned(),
    };
    let command = detect_command(
        args.file_path.as_str(),
        args.silence,
        args.minimum_silence_duration,
    );
    let pipeline = Pipeline::new(args.file_path, out_path, stem, extension);
    (pipeline, Action::Detect { args: command })
}

} // verus!
