//! The decisions of media optimization: when to resize an image, what it is
//! written as, how a converted file is renamed, and how ffmpeg is driven to
//! optimize a video.
use vstd::prelude::*;

use crate::modules::MediaOptions;
use crate::path_extension::{extension_of, path_extension};
use crate::sitetree::site_id::{decimal, push_decimal};
use crate::text::{ends_with, has_suffix, lowercase, push_char, push_str, str_chars, str_eq, to_lowercase};

verus! {

/// Only resize when the image is both too large in dimensions and has a
/// significant file size; without both maximum dimensions, never.
pub open spec fn spec_should_resize(options: MediaOptions, width: u32, height: u32, size: usize) -> bool {
    match (options.max_width, options.max_height) {
        (Some(w), Some(h)) => (width > w || height > h) && size > options.resize_threshold_bytes,
        _ => false,
    }
}

pub fn should_resize(options: &MediaOptions, width: u32, height: u32, size: usize) -> (r: bool)
    ensures
        r == spec_should_resize(*options, width, height, size),
{
    match (options.max_width, options.max_height) {
        (Some(w), Some(h)) => (width > w || height > h) && size > options.resize_threshold_bytes,
        _ => false,
    }
}

/// What an optimized image is written as.
#[derive(Debug, Clone, Copy, PartialEq, Eq, Structural)]
pub enum ImageOutput {
    Webp,
    Jpeg,
    Png,
}

/// Index of the last `.` in `s`, or -1.
pub open spec fn last_dot(s: Seq<char>) -> int
    decreases s.len(),
{
    if s.len() == 0 {
        -1
    } else if s.last() == '.' {
        s.len() - 1
    } else {
        last_dot(s.drop_last())
    }
}

/// WebP when converting; otherwise PNG for a `png` file and JPEG for anything else.
pub open spec fn spec_image_output(options: MediaOptions, name: Seq<char>) -> ImageOutput {
    if options.convert_to_webp {
        ImageOutput::Webp
    } else if path_extension(name) == Some("png"@) {
        ImageOutput::Png
    } else {
        ImageOutput::Jpeg
    }
}

fn last_dot_index(cs: &Vec<char>) -> (r: Option<usize>)
    ensures
        r matches Some(i) ==> i == last_dot(cs@) && i < cs.len(),
        r is None ==> last_dot(cs@) == -1,
{
    let mut i = cs.len();
    proof {
        assert(cs@.take(cs@.len() as int) =~= cs@);
    }
    while i > 0
        invariant
            i <= cs.len(),
            last_dot(cs@) == last_dot(cs@.take(i as int)),
        decreases i,
    {
        proof {
            assert(cs@.take(i as int).drop_last() =~= cs@.take(i - 1));
        }
        if cs[i - 1] == '.' {
            return Some(i - 1);
        }
        i -= 1;
    }
    proof {
        assert(cs@.take(0) =~= Seq::<char>::empty());
    }
    None
}

/// Whether the extension of `name` is `png`.
fn is_png(name: &str) -> (r: bool)
    ensures
        r == (path_extension(name@) == Some("png"@)),
{
    match extension_of(name) {
        Some(e) => str_eq(e.as_str(), "png"),
        None => false,
    }
}

pub fn image_output(options: &MediaOptions, name: &str) -> (r: ImageOutput)
    ensures
        r == spec_image_output(*options, name@),
{
    if options.convert_to_webp {
        ImageOutput::Webp
    } else if is_png(name) {
        ImageOutput::Png
    } else {
        ImageOutput::Jpeg
    }
}

/// `name` with the part after its last `.` replaced by `ext`, or with `.ext`
/// added when it has no `.`.
pub open spec fn spec_renamed(name: Seq<char>, ext: Seq<char>) -> Seq<char> {
    let d = last_dot(name);
    if d >= 0 {
        name.take(d) + seq!['.'] + ext
    } else {
        name + seq!['.'] + ext
    }
}

pub fn renamed_with_extension(name: &str, ext: &str) -> (r: String)
    ensures
        r@ == spec_renamed(name@, ext@),
{
    let cs = str_chars(name);
    let mut r = String::new();
    let stop = match last_dot_index(&cs) {
        Some(d) => d,
        None => cs.len(),
    };
    let mut i: usize = 0;
    while i < stop
        invariant
            stop <= cs.len(),
            i <= stop,
            r@ == cs@.take(i as int),
        decreases stop - i,
    {
        push_char(&mut r, cs[i]);
        proof {
            assert(cs@.take(i + 1) =~= cs@.take(i as int).push(cs@[i as int]));
        }
        i += 1;
    }
    push_char(&mut r, '.');
    push_str(&mut r, ext);
    proof {
        if last_dot(cs@) < 0 {
            assert(cs@.take(cs@.len() as int) =~= cs@);
        }
    }
    r
}

/// The ffmpeg video filter: scale down into the maximum dimensions when both
/// are set, else only make the dimensions even.
pub open spec fn video_filter(options: MediaOptions) -> Seq<char> {
    match (options.max_width, options.max_height) {
        (Some(w), Some(h)) => "scale='min("@ + decimal(w as nat) + ",iw)':'min("@ + decimal(h as nat)
            + "*ih/iw,ih)':force_original_aspect_ratio=decrease:force_divisible_by=2"@,
        _ => "scale=trunc(iw/2)*2:trunc(ih/2)*2"@,
    }
}

fn video_filter_text(options: &MediaOptions) -> (r: String)
    ensures
        r@ == video_filter(*options),
{
    let mut r = String::new();
    match (options.max_width, options.max_height) {
        (Some(w), Some(h)) => {
            push_str(&mut r, "scale='min(");
            push_decimal(&mut r, w as usize);
            push_str(&mut r, ",iw)':'min(");
            push_decimal(&mut r, h as usize);
            push_str(&mut r, "*ih/iw,ih)':force_original_aspect_ratio=decrease:force_divisible_by=2");
        },
        _ => {
            push_str(&mut r, "scale=trunc(iw/2)*2:trunc(ih/2)*2");
        },
    }
    r
}

/// Arguments of the first ffmpeg run: H.264 at the configured quality, audio copied.
pub open spec fn first_video_args(options: MediaOptions, input: Seq<char>, output: Seq<char>) -> Seq<Seq<char>> {
    seq![
        "-i"@, input, "-c:v"@, "libx264"@, "-crf"@, decimal(options.video_crf as nat), "-preset"@, "medium"@,
        "-vf"@, video_filter(options),
        "-c:a"@, "copy"@, "-avoid_negative_ts"@, "make_zero"@, "-movflags"@, "+faststart"@, "-y"@, output,
    ]
}

/// Arguments of the second ffmpeg run: the same video settings, without audio.
pub open spec fn retry_video_args(options: MediaOptions, input: Seq<char>, output: Seq<char>) -> Seq<Seq<char>> {
    seq![
        "-i"@, input, "-c:v"@, "libx264"@, "-crf"@, decimal(options.video_crf as nat), "-preset"@, "medium"@,
        "-vf"@, video_filter(options),
        "-an"@, "-avoid_negative_ts"@, "make_zero"@, "-movflags"@, "+faststart"@, "-y"@, output,
    ]
}

/// Arguments of the last ffmpeg run, for WebM files: VP9 without audio.
pub open spec fn webm_video_args(input: Seq<char>, output: Seq<char>) -> Seq<Seq<char>> {
    seq![
        "-i"@, input, "-c:v"@, "libvpx-vp9"@, "-crf"@, "30"@, "-b:v"@, "0"@, "-an"@, "-f"@, "webm"@, "-y"@, output,
    ]
}

/// The views of a list of strings.
pub open spec fn args_view(v: Seq<String>) -> Seq<Seq<char>> {
    Seq::new(v.len(), |i: int| v[i]@)
}

fn push_arg(args: &mut Vec<String>, a: &str)
    ensures
        args_view(final(args)@) == args_view(old(args)@).push(a@),
{
    args.push(a.to_owned());
    proof {
        assert(args_view(args@) =~= args_view(old(args)@).push(a@));
    }
}

fn push_owned(args: &mut Vec<String>, a: String)
    ensures
        args_view(final(args)@) == args_view(old(args)@).push(a@),
{
    let ghost v = a@;
    args.push(a);
    proof {
        assert(args_view(args@) =~= args_view(old(args)@).push(v));
    }
}

/// The arguments both H.264 runs start with.
fn h264_args(options: &MediaOptions, input: &str) -> (r: Vec<String>)
    ensures
        args_view(r@) == seq![
            "-i"@, input@, "-c:v"@, "libx264"@, "-crf"@, decimal(options.video_crf as nat), "-preset"@, "medium"@,
            "-vf"@, video_filter(*options),
        ],
{
    let mut r: Vec<String> = Vec::new();
    push_arg(&mut r, "-i");
    push_arg(&mut r, input);
    push_arg(&mut r, "-c:v");
    push_arg(&mut r, "libx264");
    push_arg(&mut r, "-crf");
    let mut crf = String::new();
    push_decimal(&mut crf, options.video_crf as usize);
    push_owned(&mut r, crf);
    push_arg(&mut r, "-preset");
    push_arg(&mut r, "medium");
    push_arg(&mut r, "-vf");
    push_owned(&mut r, video_filter_text(options));
    proof {
        assert(args_view(r@) =~= seq![
            "-i"@, input@, "-c:v"@, "libx264"@, "-crf"@, decimal(options.video_crf as nat), "-preset"@, "medium"@,
            "-vf"@, video_filter(*options),
        ]);
    }
    r
}

/// Where the optimization of a video stands.
#[derive(Debug, Clone, Copy, PartialEq, Eq, Structural)]
pub enum VideoState {
    Start,
    Probing,
    FirstAttempt,
    Retry,
    WebmAttempt,
    Done,
}

/// What happened since the last step.
#[derive(Debug, Clone, Copy, PartialEq, Eq, Structural)]
pub enum VideoEvent {
    Begin,
    /// Whether `ffmpeg -version` could be run.
    FfmpegFound(bool),
    /// Whether the last ffmpeg run succeeded.
    RunSucceeded(bool),
}

/// What to do next.
#[derive(Debug, PartialEq, Eq)]
pub enum VideoAction {
    /// Leave the video as it is, without trying.
    Skip,
    /// Check that ffmpeg can be run.
    ProbeFfmpeg,
    /// Run ffmpeg with these arguments.
    Run(Vec<String>),
    /// Replace the video with what ffmpeg wrote.
    UseOutput,
    /// Give up, keeping the video as it is.
    KeepOriginal,
}

/// Mathematical form of an action.
pub enum SpecVideoAction {
    Skip,
    ProbeFfmpeg,
    Run(Seq<Seq<char>>),
    UseOutput,
    KeepOriginal,
}

impl View for VideoAction {
    type V = SpecVideoAction;

    open spec fn view(&self) -> SpecVideoAction {
        match self {
            VideoAction::Skip => SpecVideoAction::Skip,
            VideoAction::ProbeFfmpeg => SpecVideoAction::ProbeFfmpeg,
            VideoAction::Run(args) => SpecVideoAction::Run(args_view(args@)),
            VideoAction::UseOutput => SpecVideoAction::UseOutput,
            VideoAction::KeepOriginal => SpecVideoAction::KeepOriginal,
        }
    }
}

/// The next state and action of video optimization: probe for ffmpeg (unless
/// it is switched off), run it with audio copied, then without audio, then,
/// for a `.webm` file, as VP9; use the output of the first run that succeeds.
pub open spec fn video_step(
    options: MediaOptions,
    name: Seq<char>,
    input: Seq<char>,
    output: Seq<char>,
    state: VideoState,
    event: VideoEvent,
) -> (VideoState, SpecVideoAction) {
    match (state, event) {
        (VideoState::Start, VideoEvent::Begin) => if options.use_ffmpeg {
            (VideoState::Probing, SpecVideoAction::ProbeFfmpeg)
        } else {
            (VideoState::Done, SpecVideoAction::Skip)
        },
        (VideoState::Probing, VideoEvent::FfmpegFound(found)) => if found {
            (VideoState::FirstAttempt, SpecVideoAction::Run(first_video_args(options, input, output)))
        } else {
            (VideoState::Done, SpecVideoAction::Skip)
        },
        (VideoState::FirstAttempt, VideoEvent::RunSucceeded(ok)) => if ok {
            (VideoState::Done, SpecVideoAction::UseOutput)
        } else {
            (VideoState::Retry, SpecVideoAction::Run(retry_video_args(options, input, output)))
        },
        (VideoState::Retry, VideoEvent::RunSucceeded(ok)) => if ok {
            (VideoState::Done, SpecVideoAction::UseOutput)
        } else if has_suffix(lowercase(name), ".webm"@) {
            (VideoState::WebmAttempt, SpecVideoAction::Run(webm_video_args(input, output)))
        } else {
            (VideoState::Done, SpecVideoAction::KeepOriginal)
        },
        (VideoState::WebmAttempt, VideoEvent::RunSucceeded(ok)) => if ok {
            (VideoState::Done, SpecVideoAction::UseOutput)
        } else {
            (VideoState::Done, SpecVideoAction::KeepOriginal)
        },
        _ => (VideoState::Done, SpecVideoAction::KeepOriginal),
    }
}

pub fn next_video_step(
    options: &MediaOptions,
    name: &str,
    input: &str,
    output: &str,
    state: VideoState,
    event: VideoEvent,
) -> (r: (VideoState, VideoAction))
    ensures
        (r.0, r.1@) == video_step(*options, name@, input@, output@, state, event),
{
    match (state, event) {
        (VideoState::Start, VideoEvent::Begin) => if options.use_ffmpeg {
            (VideoState::Probing, VideoAction::ProbeFfmpeg)
        } else {
            (VideoState::Done, VideoAction::Skip)
        },
        (VideoState::Probing, VideoEvent::FfmpegFound(found)) => if found {
            let mut args = h264_args(options, input);
            push_arg(&mut args, "-c:a");
            push_arg(&mut args, "copy");
            push_arg(&mut args, "-avoid_negative_ts");
            push_arg(&mut args, "make_zero");
            push_arg(&mut args, "-movflags");
            push_arg(&mut args, "+faststart");
            push_arg(&mut args, "-y");
            push_arg(&mut args, output);
            proof {
                assert(args_view(args@) =~= first_video_args(*options, input@, output@));
            }
            (VideoState::FirstAttempt, VideoAction::Run(args))
        } else {
            (VideoState::Done, VideoAction::Skip)
        },
        (VideoState::FirstAttempt, VideoEvent::RunSucceeded(ok)) => if ok {
            (VideoState::Done, VideoAction::UseOutput)
        } else {
            let mut args = h264_args(options, input);
            push_arg(&mut args, "-an");
            push_arg(&mut args, "-avoid_negative_ts");
            push_arg(&mut args, "make_zero");
            push_arg(&mut args, "-movflags");
            push_arg(&mut args, "+faststart");
            push_arg(&mut args, "-y");
            push_arg(&mut args, output);
            proof {
                assert(args_view(args@) =~= retry_video_args(*options, input@, output@));
            }
            (VideoState::Retry, VideoAction::Run(args))
        },
        (VideoState::Retry, VideoEvent::RunSucceeded(ok)) => if ok {
            (VideoState::Done, VideoAction::UseOutput)
        } else if ends_with(to_lowercase(name).as_str(), ".webm") {
            let mut args: Vec<String> = Vec::new();
            push_arg(&mut args, "-i");
            push_arg(&mut args, input);
            push_arg(&mut args, "-c:v");
            push_arg(&mut args, "libvpx-vp9");
            push_arg(&mut args, "-crf");
            push_arg(&mut args, "30");
            push_arg(&mut args, "-b:v");
            push_arg(&mut args, "0");
            push_arg(&mut args, "-an");
            push_arg(&mut args, "-f");
            push_arg(&mut args, "webm");
            push_arg(&mut args, "-y");
            push_arg(&mut args, output);
            proof {
                assert(args_view(args@) =~= webm_video_args(input@, output@));
            }
            (VideoState::WebmAttempt, VideoAction::Run(args))
        } else {
            (VideoState::Done, VideoAction::KeepOriginal)
        },
        (VideoState::WebmAttempt, VideoEvent::RunSucceeded(ok)) => if ok {
            (VideoState::Done, VideoAction::UseOutput)
        } else {
            (VideoState::Done, VideoAction::KeepOriginal)
        },
        _ => (VideoState::Done, VideoAction::KeepOriginal),
    }
}

} // verus!
