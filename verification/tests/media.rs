use lssg::media::{
    image_output, next_video_step, renamed_with_extension, should_resize, ImageOutput, VideoAction, VideoEvent,
    VideoState,
};
use lssg::modules::MediaOptions;

fn strings(v: &[&str]) -> Vec<String> {
    v.iter().map(|s| s.to_string()).collect()
}

#[test]
fn resize_needs_size_and_dimensions() {
    let o = MediaOptions::default();
    assert!(should_resize(&o, 4000, 100, 2_000_000));
    assert!(!should_resize(&o, 4000, 100, 1_000_000));
    assert!(!should_resize(&o, 1920, 1080, 5_000_000));
    let mut free = o;
    free.max_height = None;
    assert!(!should_resize(&free, 4000, 4000, 5_000_000));
}

#[test]
fn image_output_format() {
    let mut o = MediaOptions::default();
    assert_eq!(image_output(&o, "a.png"), ImageOutput::Webp);
    o.convert_to_webp = false;
    assert_eq!(image_output(&o, "a.png"), ImageOutput::Png);
    assert_eq!(image_output(&o, "dir/a.jpg"), ImageOutput::Jpeg);
    assert_eq!(image_output(&o, "a.gif"), ImageOutput::Jpeg);
    assert_eq!(image_output(&o, "png"), ImageOutput::Jpeg);
}

#[test]
fn renaming_to_new_extension() {
    assert_eq!(renamed_with_extension("photo.jpg", "webp"), "photo.webp");
    assert_eq!(renamed_with_extension("a.b.png", "webp"), "a.b.webp");
    assert_eq!(renamed_with_extension("noext", "webp"), "noext.webp");
}

#[test]
fn video_steps_in_order() {
    let o = MediaOptions::default();
    let (s, a) = next_video_step(&o, "clip.WebM", "in", "out", VideoState::Start, VideoEvent::Begin);
    assert_eq!((s, &a), (VideoState::Probing, &VideoAction::ProbeFfmpeg));
    let (s, a) = next_video_step(&o, "clip.WebM", "in", "out", s, VideoEvent::FfmpegFound(true));
    assert_eq!(s, VideoState::FirstAttempt);
    assert_eq!(
        a,
        VideoAction::Run(strings(&[
            "-i", "in", "-c:v", "libx264", "-crf", "25", "-preset", "medium", "-vf",
            "scale='min(1920,iw)':'min(1080*ih/iw,ih)':force_original_aspect_ratio=decrease:force_divisible_by=2",
            "-c:a", "copy", "-avoid_negative_ts", "make_zero", "-movflags", "+faststart", "-y", "out",
        ]))
    );
    let (s, a) = next_video_step(&o, "clip.WebM", "in", "out", s, VideoEvent::RunSucceeded(false));
    assert_eq!(s, VideoState::Retry);
    match &a {
        VideoAction::Run(args) => assert_eq!(args[10], "-an"),
        _ => panic!("expected a run"),
    }
    let (s, a) = next_video_step(&o, "clip.WebM", "in", "out", s, VideoEvent::RunSucceeded(false));
    assert_eq!(s, VideoState::WebmAttempt);
    assert_eq!(
        a,
        VideoAction::Run(strings(&[
            "-i", "in", "-c:v", "libvpx-vp9", "-crf", "30", "-b:v", "0", "-an", "-f", "webm", "-y", "out",
        ]))
    );
    let (s, a) = next_video_step(&o, "clip.WebM", "in", "out", s, VideoEvent::RunSucceeded(true));
    assert_eq!((s, a), (VideoState::Done, VideoAction::UseOutput));
}

#[test]
fn video_steps_give_up() {
    let mut o = MediaOptions::default();
    let (_, a) = next_video_step(&o, "a.mp4", "in", "out", VideoState::Probing, VideoEvent::FfmpegFound(false));
    assert_eq!(a, VideoAction::Skip);
    let (s, a) = next_video_step(&o, "a.mp4", "in", "out", VideoState::Retry, VideoEvent::RunSucceeded(false));
    assert_eq!((s, a), (VideoState::Done, VideoAction::KeepOriginal));
    o.use_ffmpeg = false;
    o.max_width = None;
    let (s, a) = next_video_step(&o, "a.mp4", "in", "out", VideoState::Start, VideoEvent::Begin);
    assert_eq!((s, a), (VideoState::Done, VideoAction::Skip));
    o.use_ffmpeg = true;
    let (_, a) = next_video_step(&o, "a.mp4", "in", "out", VideoState::Probing, VideoEvent::FfmpegFound(true));
    match a {
        VideoAction::Run(args) => assert_eq!(args[9], "scale=trunc(iw/2)*2:trunc(ih/2)*2"),
        _ => panic!("expected a run"),
    }
}
