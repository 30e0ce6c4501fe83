//! Decimal rendering of counters and the argument lists handed to the
//! external encoder process.
//!
//! The encoder is driven entirely through its command line; every
//! invocation the system makes is assembled here, so the exact argument
//! vectors are part of the library's contract. The caller spawns the
//! process with these arguments and pipes raw bytes into it.

use vstd::prelude::*;
use vstd::string::*;

verus! {

/// The decimal digit character for a value below ten.
pub open spec fn digit_char(d: nat) -> char {
    if d == 0 {
        '0'
    } else if d == 1 {
        '1'
    } else if d == 2 {
        '2'
    } else if d == 3 {
        '3'
    } else if d == 4 {
        '4'
    } else if d == 5 {
        '5'
    } else if d == 6 {
        '6'
    } else if d == 7 {
        '7'
    } else if d == 8 {
        '8'
    } else {
        '9'
    }
}

/// The usual decimal rendering of a natural number: no leading zeros,
/// most significant digit first.
pub open spec fn dec_of(n: nat) -> Seq<char>
    decreases n,
{
    if n < 10 {
        seq![digit_char(n)]
    } else {
        dec_of(n / 10).push(digit_char(n % 10))
    }
}

fn digit_str(d: u64) -> (r: &'static str)
    requires
        d < 10,
    ensures
        r@ == seq![digit_char(d as nat)],
{
    let r: &'static str = match d {
        0 => "0",
        1 => "1",
        2 => "2",
        3 => "3",
        4 => "4",
        5 => "5",
        6 => "6",
        7 => "7",
        8 => "8",
        _ => "9",
    };
    proof {
        reveal_strlit("0");
        reveal_strlit("1");
        reveal_strlit("2");
        reveal_strlit("3");
        reveal_strlit("4");
        reveal_strlit("5");
        reveal_strlit("6");
        reveal_strlit("7");
        reveal_strlit("8");
        reveal_strlit("9");
        assert(r@ =~= seq![digit_char(d as nat)]);
    }
    r
}

/// Renders a counter in decimal, exactly as the ingestion server reports
/// it back to the producer.
pub fn u64_to_dec(n: u64) -> (r: String)
    ensures
        r@ == dec_of(n as nat),
    decreases n,
{
    if n < 10 {
        String::from_str(digit_str(n))
    } else {
        let mut s = u64_to_dec(n / 10);
        s.append(digit_str(n % 10));
        s
    }
}

/// A `String` from a literal, for assembling argument lists.
fn lit(s: &str) -> (r: String)
    ensures
        r@ == s@,
{
    String::from_str(s)
}

/// Executable-permission repair for a user-supplied encoder binary: if
/// no execute bit is set, the mode to write back; otherwise nothing to
/// change. The startup check repairs before it fails.
pub fn repaired_mode(mode: u32) -> (r: Option<u32>)
    ensures
        (r is Some) <==> (mode & 0o111 == 0),
        r matches Some(m) ==> m == mode | 0o111,
{
    if mode & 0o111 == 0 {
        Some(mode | 0o111)
    } else {
        None
    }
}

/// The arguments of the audio-mixdown invocation: raw little-endian
/// float32 stereo PCM at `sample_rate` read from standard input,
/// encoded as float PCM into the WAV file `output`. Overwrites.
pub open spec fn mix_encode_arg_views(sample_rate: nat, output: Seq<char>) -> Seq<Seq<char>> {
    seq![
        "-y"@,
        "-f"@,
        "f32le"@,
        "-ar"@,
        dec_of(sample_rate),
        "-ac"@,
        "2"@,
        "-i"@,
        "-"@,
        "-c:a"@,
        "pcm_f32le"@,
        "-f"@,
        "wav"@,
        output,
    ]
}

/// Builds [`mix_encode_arg_views`] as the argument vector to hand the
/// encoder process.
pub fn mix_encode_args(sample_rate: u32, output: &str) -> (r: Vec<String>)
    ensures
        r.deep_view() == mix_encode_arg_views(sample_rate as nat, output@),
{
    let mut r: Vec<String> = Vec::new();
    r.push(lit("-y"));
    r.push(lit("-f"));
    r.push(lit("f32le"));
    r.push(lit("-ar"));
    r.push(u64_to_dec(sample_rate as u64));
    r.push(lit("-ac"));
    r.push(lit("2"));
    r.push(lit("-i"));
    r.push(lit("-"));
    r.push(lit("-c:a"));
    r.push(lit("pcm_f32le"));
    r.push(lit("-f"));
    r.push(lit("wav"));
    r.push(String::from_str(output));
    proof {
        assert(r.deep_view() =~= mix_encode_arg_views(sample_rate as nat, output@));
    }
    r
}

/// The arguments of the audio-conversion invocation: decode `input`,
/// resample to 44100 Hz, write float PCM into `output`. Overwrites.
pub open spec fn convert_audio_arg_views(input: Seq<char>, output: Seq<char>) -> Seq<Seq<char>> {
    seq!["-i"@, input, "-ar"@, "44100"@, "-c:a"@, "pcm_f32le"@, "-y"@, output]
}

/// Builds [`convert_audio_arg_views`] as the argument vector to hand
/// the encoder process.
pub fn convert_audio_args(input: &str, output: &str) -> (r: Vec<String>)
    ensures
        r.deep_view() == convert_audio_arg_views(input@, output@),
{
    let mut r: Vec<String> = Vec::new();
    r.push(lit("-i"));
    r.push(String::from_str(input));
    r.push(lit("-ar"));
    r.push(lit("44100"));
    r.push(lit("-c:a"));
    r.push(lit("pcm_f32le"));
    r.push(lit("-y"));
    r.push(String::from_str(output));
    proof {
        assert(r.deep_view() =~= convert_audio_arg_views(input@, output@));
    }
    r
}

/// The filter graph of the final mux: delay the music bed by one
/// second on both channels and scale it by `volume`, sum it with the
/// mixed events (normalization off by default, on request on), then
/// peak-limit the sum.
pub open spec fn combine_filter_view(volume: Seq<char>, normalize: bool) -> Seq<char> {
    "[1:a]adelay=1000|1000,volume="@ + volume + "[a2];[2:a][a2]amix=inputs=2"@ + (if normalize {
        Seq::<char>::empty()
    } else {
        ":normalize=0"@
    }) + ",alimiter=limit=1.0:level=false:attack=0.1:release=1[a]"@
}

/// Builds [`combine_filter_view`]. `music_volume` is the already
/// rendered scale factor.
pub fn combine_filter(music_volume: &str, normalize: bool) -> (r: String)
    ensures
        r@ == combine_filter_view(music_volume@, normalize),
{
    let mut r = String::from_str("[1:a]adelay=1000|1000,volume=");
    r.append(music_volume);
    r.append("[a2];[2:a][a2]amix=inputs=2");
    if !normalize {
        r.append(":normalize=0");
    }
    r.append(",alimiter=limit=1.0:level=false:attack=0.1:release=1[a]");
    proof {
        assert(r@ =~= combine_filter_view(music_volume@, normalize));
    }
    r
}

/// The arguments of the final mux: video, music bed and mixed events
/// in, the filter graph of [`combine_filter_view`], the video track
/// copied unchanged, the summed audio encoded as AAC at
/// `audio_bitrate`, metadata relocated for progressive playback.
/// Overwrites `output`.
pub open spec fn combine_arg_views(
    video: Seq<char>,
    music: Seq<char>,
    hitsounds: Seq<char>,
    volume: Seq<char>,
    normalize: bool,
    audio_bitrate: Seq<char>,
    output: Seq<char>,
) -> Seq<Seq<char>> {
    seq![
        "-y"@,
        "-i"@,
        video,
        "-i"@,
        music,
        "-i"@,
        hitsounds,
        "-filter_complex"@,
        combine_filter_view(volume, normalize),
        "-map"@,
        "0:v:0"@,
        "-map"@,
        "[a]"@,
        "-b:a"@,
        audio_bitrate,
        "-c:a"@,
        "aac"@,
        "-c:v"@,
        "copy"@,
        "-movflags"@,
        "+faststart"@,
        output,
    ]
}

/// Builds [`combine_arg_views`] as the argument vector to hand the
/// encoder process.
pub fn combine_streams_args(
    video: &str,
    music: &str,
    hitsounds: &str,
    music_volume: &str,
    normalize: bool,
    audio_bitrate: &str,
    output: &str,
) -> (r: Vec<String>)
    ensures
        r.deep_view() == combine_arg_views(
            video@,
            music@,
            hitsounds@,
            music_volume@,
            normalize,
            audio_bitrate@,
            output@,
        ),
{
    let mut r: Vec<String> = Vec::new();
    r.push(lit("-y"));
    r.push(lit("-i"));
    r.push(String::from_str(video));
    r.push(lit("-i"));
    r.push(String::from_str(music));
    r.push(lit("-i"));
    r.push(String::from_str(hitsounds));
    r.push(lit("-filter_complex"));
    r.push(combine_filter(music_volume, normalize));
    r.push(lit("-map"));
    r.push(lit("0:v:0"));
    r.push(lit("-map"));
    r.push(lit("[a]"));
    r.push(lit("-b:a"));
    r.push(String::from_str(audio_bitrate));
    r.push(lit("-c:a"));
    r.push(lit("aac"));
    r.push(lit("-c:v"));
    r.push(lit("copy"));
    r.push(lit("-movflags"));
    r.push(lit("+faststart"));
    r.push(String::from_str(output));
    proof {
        assert(r.deep_view() =~= combine_arg_views(
            video@,
            music@,
            hitsounds@,
            music_volume@,
            normalize,
            audio_bitrate@,
            output@,
        ));
    }
    r
}

/// The arguments of the video-session invocation: raw RGB24 frames of
/// the fixed `resolution` at `framerate` read from standard input,
/// flipped vertically (the producer's frames arrive inverted), encoded
/// with `codec` at `bitrate` into `output` with metadata relocated for
/// progressive playback. Overwrites.
pub open spec fn setup_video_arg_views(
    resolution: Seq<char>,
    framerate: nat,
    codec: Seq<char>,
    bitrate: Seq<char>,
    output: Seq<char>,
) -> Seq<Seq<char>> {
    seq![
        "-probesize"@,
        "50M"@,
        "-f"@,
        "rawvideo"@,
        "-pix_fmt"@,
        "rgb24"@,
        "-s"@,
        resolution,
        "-r"@,
        dec_of(framerate),
        "-thread_queue_size"@,
        "1024"@,
        "-i"@,
        "pipe:0"@,
        "-c:v"@,
        codec,
        "-b:v"@,
        bitrate,
        "-vf"@,
        "vflip"@,
        "-pix_fmt"@,
        "yuv420p"@,
        "-movflags"@,
        "+faststart"@,
        "-y"@,
        output,
    ]
}

/// Builds [`setup_video_arg_views`] as the argument vector to hand the
/// encoder process.
pub fn setup_video_args(
    resolution: &str,
    framerate: u32,
    codec: &str,
    bitrate: &str,
    output: &str,
) -> (r: Vec<String>)
    ensures
        r.deep_view() == setup_video_arg_views(
            resolution@,
            framerate as nat,
            codec@,
            bitrate@,
            output@,
        ),
{
    let mut r: Vec<String> = Vec::new();
    r.push(lit("-probesize"));
    r.push(lit("50M"));
    r.push(lit("-f"));
    r.push(lit("rawvideo"));
    r.push(lit("-pix_fmt"));
    r.push(lit("rgb24"));
    r.push(lit("-s"));
    r.push(String::from_str(resolution));
    r.push(lit("-r"));
    r.push(u64_to_dec(framerate as u64));
    r.push(lit("-thread_queue_size"));
    r.push(lit("1024"));
    r.push(lit("-i"));
    r.push(lit("pipe:0"));
    r.push(lit("-c:v"));
    r.push(String::from_str(codec));
    r.push(lit("-b:v"));
    r.push(String::from_str(bitrate));
    r.push(lit("-vf"));
    r.push(lit("vflip"));
    r.push(lit("-pix_fmt"));
    r.push(lit("yuv420p"));
    r.push(lit("-movflags"));
    r.push(lit("+faststart"));
    r.push(lit("-y"));
    r.push(String::from_str(output));
    proof {
        assert(r.deep_view() =~= setup_video_arg_views(
            resolution@,
            framerate as nat,
            codec@,
            bitrate@,
            output@,
        ));
    }
    r
}

} // verus!
