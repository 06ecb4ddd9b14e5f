//! What the engine tells the user.

use vstd::prelude::*;

use crate::ffprobe::VideoAudioProbe;
use crate::ltc_decoder::{LtcDetectionResult, Share};
use crate::state::told;
use crate::text::{decimal, padded2, padded3, push_decimal, push_padded2, push_padded3};
use crate::timecode::FrameRate;

verus! {

/// A frame rate with two decimals.
pub open spec fn rate_hundredths(fps: FrameRate) -> Seq<char> {
    let n = ((200 * fps.num + fps.den) / (2 * fps.den as int)) as nat;
    decimal(n / 100) + "."@ + padded2(n % 100)
}

/// A frame rate with the decimals it needs, at most three.
pub open spec fn rate_short(fps: FrameRate) -> Seq<char> {
    let n = ((2000 * fps.num + fps.den) / (2 * fps.den as int)) as nat;
    let whole = decimal(n / 1000);
    let rest = n % 1000;
    if rest == 0 {
        whole
    } else if rest % 100 == 0 {
        whole + "."@ + decimal(rest / 100)
    } else if rest % 10 == 0 {
        whole + "."@ + padded2(rest / 10)
    } else {
        whole + "."@ + padded3(rest)
    }
}

/// A share as a percentage with one decimal; a share of nothing is none.
pub open spec fn percent_text(share: Share) -> Seq<char> {
    let n: nat = if share.den == 0 {
        0
    } else {
        ((2000 * share.num + share.den) / (2 * share.den as int)) as nat
    };
    let kept = if n > u64::MAX {
        u64::MAX as nat
    } else {
        n
    };
    decimal(kept / 10) + "."@ + decimal(kept % 10)
}

fn push_rate_hundredths(out: &mut String, fps: &FrameRate)
    requires
        fps.den > 0,
    ensures
        final(out)@ == old(out)@ + rate_hundredths(*fps),
{
    let num: u64 = fps.num as u64;
    let den: u64 = fps.den as u64;
    let n: u64 = (200 * num + den) / (2 * den);
    push_decimal(out, n / 100);
    out.append(".");
    push_padded2(out, n % 100);
    assert(out@ =~= old(out)@ + rate_hundredths(*fps));
}

fn push_rate_short(out: &mut String, fps: &FrameRate)
    requires
        fps.den > 0,
    ensures
        final(out)@ == old(out)@ + rate_short(*fps),
{
    let num: u64 = fps.num as u64;
    let den: u64 = fps.den as u64;
    let n: u64 = (2000 * num + den) / (2 * den);
    let rest: u64 = n % 1000;
    push_decimal(out, n / 1000);
    if rest == 0 {
    } else if rest % 100 == 0 {
        out.append(".");
        push_decimal(out, rest / 100);
    } else if rest % 10 == 0 {
        out.append(".");
        push_padded2(out, rest / 10);
    } else {
        out.append(".");
        push_padded3(out, rest);
    }
    assert(out@ =~= old(out)@ + rate_short(*fps));
}

fn push_percent(out: &mut String, share: &Share)
    ensures
        final(out)@ == old(out)@ + percent_text(*share),
{
    let kept: u64 = if share.den == 0 {
        0
    } else {
        let n: u128 = (2000 * share.num as u128 + share.den as u128) / (2 * share.den as u128);
        if n > u64::MAX as u128 {
            u64::MAX
        } else {
            n as u64
        }
    };
    push_decimal(out, kept / 10);
    out.append(".");
    push_decimal(out, kept % 10);
    assert(out@ =~= old(out)@ + percent_text(*share));
}

/// What is said of a report.
pub open spec fn summary_text(r: LtcDetectionResult) -> Seq<char> {
    "LTC decode: "@ + decimal(r.valid_frames as nat) + " frames (confidence "@ + percent_text(
        r.avg_confidence,
    ) + "%, "@ + rate_short(r.detected_fps) + (if r.drop_frame {
        " fps DF)"@
    } else {
        " fps)"@
    })
}

/// Says what a report holds.
pub fn summary(r: &LtcDetectionResult) -> (s: String)
    requires
        r.detected_fps.den > 0,
    ensures
        s@ == summary_text(*r),
{
    let mut s: String = "LTC decode: ".to_owned();
    push_decimal(&mut s, r.valid_frames as u64);
    s.append(" frames (confidence ");
    push_percent(&mut s, &r.avg_confidence);
    s.append("%, ");
    push_rate_short(&mut s, &r.detected_fps);
    if r.drop_frame {
        s.append(" fps DF)");
    } else {
        s.append(" fps)");
    }
    assert(s@ =~= summary_text(*r));
    s
}

/// How far a decode is.
pub open spec fn chunk_text(done: nat, total: nat) -> Seq<char> {
    "Chunk "@ + decimal(if done < total {
        done
    } else {
        total
    }) + "/"@ + decimal(total)
}

/// Says how far a decode is.
pub fn chunk_line(done: usize, total: usize) -> (s: String)
    ensures
        s@ == chunk_text(done as nat, total as nat),
{
    let mut s: String = "Chunk ".to_owned();
    push_decimal(&mut s, if done < total {
        done as u64
    } else {
        total as u64
    });
    s.append("/");
    push_decimal(&mut s, total as u64);
    assert(s@ =~= chunk_text(done as nat, total as nat));
    s
}

/// The name of the decoder that is used.
pub open spec fn decoder_name(use_libltc: bool) -> Seq<char> {
    if use_libltc {
        "libltc"@
    } else {
        "builtin"@
    }
}

/// What is said when a WAV file begins to be decoded.
pub open spec fn decoding_text(path: Seq<char>, use_libltc: bool, fps: FrameRate, chunks: nat) -> Seq<char> {
    "Decoding LTC from: "@ + path + " ["@ + decoder_name(use_libltc) + "] at "@ + rate_hundredths(fps)
        + " fps ("@ + decimal(chunks) + " chunks)"@
}

/// Says that a WAV file is being decoded.
pub fn decoding_line(path: &str, use_libltc: bool, fps: &FrameRate, chunks: usize) -> (s: String)
    requires
        fps.den > 0,
    ensures
        s@ == decoding_text(path@, use_libltc, *fps, chunks as nat),
{
    let mut s: String = "Decoding LTC from: ".to_owned();
    s.append(path);
    s.append(" [");
    s.append(
        if use_libltc {
            "libltc"
        } else {
            "builtin"
        },
    );
    s.append("] at ");
    push_rate_hundredths(&mut s, fps);
    s.append(" fps (");
    push_decimal(&mut s, chunks as u64);
    s.append(" chunks)");
    assert(s@ =~= decoding_text(path@, use_libltc, *fps, chunks as nat));
    s
}

/// What is said when the audio of a video begins to be extracted.
pub open spec fn extracting_text(path: Seq<char>, stream: nat, channel: nat) -> Seq<char> {
    "Extracting audio from: "@ + path + " stream="@ + decimal(stream) + " ch="@ + decimal(channel)
}

/// Says that the audio of a video is being extracted.
pub fn extracting_line(path: &str, stream: usize, channel: usize) -> (s: String)
    ensures
        s@ == extracting_text(path@, stream as nat, channel as nat),
{
    let mut s: String = "Extracting audio from: ".to_owned();
    s.append(path);
    s.append(" stream=");
    push_decimal(&mut s, stream as u64);
    s.append(" ch=");
    push_decimal(&mut s, channel as u64);
    assert(s@ =~= extracting_text(path@, stream as nat, channel as nat));
    s
}

/// What is said of a video that was probed.
pub open spec fn probed_text(probe: VideoAudioProbe) -> Seq<char> {
    "Video probed: "@ + decimal(probe.streams@.len()) + " audio stream(s), "@ + decimal(
        probe.total_audio_channels as nat,
    ) + " total channel(s)"@
}

/// Says what a probed video holds.
pub fn probed_line(probe: &VideoAudioProbe) -> (s: String)
    ensures
        s@ == probed_text(*probe),
{
    let mut s: String = "Video probed: ".to_owned();
    push_decimal(&mut s, probe.streams.len() as u64);
    s.append(" audio stream(s), ");
    push_decimal(&mut s, probe.total_audio_channels as u64);
    s.append(" total channel(s)");
    assert(s@ =~= probed_text(*probe));
    s
}

/// The numbers of the first `n` audio streams, between commas.
pub open spec fn stream_list(probe: VideoAudioProbe, n: int) -> Seq<char>
    decreases n,
{
    if n <= 0 {
        seq![]
    } else if n == 1 {
        decimal(probe.streams@[0].stream_index as nat)
    } else {
        stream_list(probe, n - 1) + ", "@ + decimal(probe.streams@[n - 1].stream_index as nat)
    }
}

/// The first audio stream with the given number, from the `from`th on.
pub open spec fn find_stream(probe: VideoAudioProbe, stream: usize, from: int) -> Option<int>
    decreases probe.streams@.len() - from,
{
    if from < 0 || from >= probe.streams@.len() {
        None
    } else if probe.streams@[from].stream_index == stream {
        Some(from)
    } else {
        find_stream(probe, stream, from + 1)
    }
}

/// Why a channel cannot be decoded, as far as the probe of the file tells.
pub open spec fn selection_error(
    probe: VideoAudioProbe,
    path: Seq<char>,
    stream: usize,
    channel: usize,
) -> Option<Seq<char>> {
    match find_stream(probe, stream, 0) {
        None => Some(
            "Stream "@ + decimal(stream as nat) + " not found in '"@ + path
                + "' (available audio streams: ["@ + stream_list(probe, probe.streams@.len() as int)
                + "])"@,
        ),
        Some(i) => if channel >= probe.streams@[i].channels {
            Some(
                "Channel "@ + decimal(channel as nat) + " out of range for stream "@ + decimal(
                    stream as nat,
                ) + " in '"@ + path + "' ("@ + decimal(probe.streams@[i].channels as nat)
                    + " channels available)"@,
            )
        } else {
            None
        },
    }
}

fn push_stream_list(out: &mut String, probe: &VideoAudioProbe)
    ensures
        final(out)@ == old(out)@ + stream_list(*probe, probe.streams@.len() as int),
{
    let n: usize = probe.streams.len();
    let mut i: usize = 0;
    assert(out@ =~= old(out)@ + stream_list(*probe, 0));
    while i < n
        invariant
            n == probe.streams@.len(),
            i <= n,
            out@ == old(out)@ + stream_list(*probe, i as int),
        decreases n - i,
    {
        if i > 0 {
            out.append(", ");
        }
        push_decimal(out, probe.streams[i].stream_index as u64);
        i += 1;
        assert(out@ =~= old(out)@ + stream_list(*probe, i as int));
    }
}

/// Checks a channel against the probe of its file.
pub fn check_selection(probe: &VideoAudioProbe, path: &str, stream: usize, channel: usize) -> (r: Option<
    String,
>)
    ensures
        told(r) == selection_error(*probe, path@, stream, channel),
{
    let n: usize = probe.streams.len();
    let mut i: usize = 0;
    while i < n && probe.streams[i].stream_index != stream
        invariant
            n == probe.streams@.len(),
            i <= n,
            find_stream(*probe, stream, i as int) == find_stream(*probe, stream, 0),
        decreases n - i,
    {
        i += 1;
    }
    if i >= n {
        let mut s: String = "Stream ".to_owned();
        push_decimal(&mut s, stream as u64);
        s.append(" not found in '");
        s.append(path);
        s.append("' (available audio streams: [");
        push_stream_list(&mut s, probe);
        s.append("])");
        assert(s@ =~= selection_error(*probe, path@, stream, channel)->0);
        return Some(s);
    }
    let channels: usize = probe.streams[i].channels;
    if channel >= channels {
        let mut s: String = "Channel ".to_owned();
        push_decimal(&mut s, channel as u64);
        s.append(" out of range for stream ");
        push_decimal(&mut s, stream as u64);
        s.append(" in '");
        s.append(path);
        s.append("' (");
        push_decimal(&mut s, channels as u64);
        s.append(" channels available)");
        assert(s@ =~= selection_error(*probe, path@, stream, channel)->0);
        return Some(s);
    }
    None
}

} // verus!
