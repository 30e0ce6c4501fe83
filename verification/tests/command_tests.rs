use render_core::command::{
    combine_filter, combine_streams_args, convert_audio_args, mix_encode_args, repaired_mode,
    setup_video_args, u64_to_dec,
};

#[test]
fn decimal_rendering_is_exact() {
    assert_eq!(u64_to_dec(0), "0");
    assert_eq!(u64_to_dec(7), "7");
    assert_eq!(u64_to_dec(10), "10");
    assert_eq!(u64_to_dec(44100), "44100");
    assert_eq!(u64_to_dec(60), "60");
    assert_eq!(u64_to_dec(18446744073709551615), "18446744073709551615");
}

#[test]
fn mixdown_invocation_is_pinned() {
    let args = mix_encode_args(44100, "out.wav");
    assert_eq!(args, vec![
        "-y", "-f", "f32le", "-ar", "44100", "-ac", "2", "-i", "-", "-c:a", "pcm_f32le", "-f",
        "wav", "out.wav",
    ]);
}

#[test]
fn conversion_invocation_is_pinned() {
    let args = convert_audio_args("in.mp3", "out.wav");
    assert_eq!(args, vec!["-i", "in.mp3", "-ar", "44100", "-c:a", "pcm_f32le", "-y", "out.wav"]);
}

#[test]
fn combine_filter_scales_and_limits() {
    assert_eq!(
        combine_filter("0.35", false),
        "[1:a]adelay=1000|1000,volume=0.35[a2];[2:a][a2]amix=inputs=2:normalize=0,alimiter=limit=1.0:level=false:attack=0.1:release=1[a]"
    );
    assert_eq!(
        combine_filter("1", true),
        "[1:a]adelay=1000|1000,volume=1[a2];[2:a][a2]amix=inputs=2,alimiter=limit=1.0:level=false:attack=0.1:release=1[a]"
    );
}

#[test]
fn combine_invocation_is_pinned() {
    let args = combine_streams_args("v.mp4", "m.wav", "h.wav", "0.5", false, "192k", "final.mp4");
    assert_eq!(args, vec![
        "-y", "-i", "v.mp4", "-i", "m.wav", "-i", "h.wav", "-filter_complex",
        "[1:a]adelay=1000|1000,volume=0.5[a2];[2:a][a2]amix=inputs=2:normalize=0,alimiter=limit=1.0:level=false:attack=0.1:release=1[a]",
        "-map", "0:v:0", "-map", "[a]", "-b:a", "192k", "-c:a", "aac", "-c:v", "copy",
        "-movflags", "+faststart", "final.mp4",
    ]);
}

#[test]
fn video_session_invocation_is_pinned() {
    let args = setup_video_args("1920x1080", 60, "libx264", "12M", "video.mp4");
    assert_eq!(args, vec![
        "-probesize", "50M", "-f", "rawvideo", "-pix_fmt", "rgb24", "-s", "1920x1080", "-r",
        "60", "-thread_queue_size", "1024", "-i", "pipe:0", "-c:v", "libx264", "-b:v", "12M",
        "-vf", "vflip", "-pix_fmt", "yuv420p", "-movflags", "+faststart", "-y", "video.mp4",
    ]);
}

#[test]
fn permission_repair_only_touches_non_executable_modes() {
    assert_eq!(repaired_mode(0o644), Some(0o755));
    assert_eq!(repaired_mode(0o600), Some(0o711));
    assert_eq!(repaired_mode(0o755), None);
    assert_eq!(repaired_mode(0o100), None);
    assert_eq!(repaired_mode(0), Some(0o111));
}
