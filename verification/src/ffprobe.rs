//! What ffprobe tells about media files.
//!
//! Times are in nanoseconds.

use vstd::prelude::*;

use crate::json::{field_of, json_records, read_records, record_of, records_of, JsonField};
use crate::paths::{extension_of, lower_extension, lower_extension_of};
use crate::text::{
    all_ascii, ascii_lower, chars_of, concat2, concat3, decimal, names, parse_u32, parsed_number,
    push_decimal, push_str, push_string, same, string_of, strs, trim, trimmed,
};

verus! {

/// An audio stream of a file.
#[derive(Clone, Debug)]
pub struct AudioStreamInfo {
    /// The number of the stream among all streams of the file.
    pub stream_index: usize,
    pub channels: usize,
    pub codec_name: String,
    pub sample_rate: u32,
}

/// The audio streams of a file.
#[derive(Clone, Debug)]
pub struct VideoAudioProbe {
    pub streams: Vec<AudioStreamInfo>,
    pub total_audio_channels: usize,
    pub is_video_file: bool,
}

// ── Kinds of files ─────────────────────────────────────────────────────────

/// The extension of a video file, in lower case.
pub open spec fn video_extension(ext: Seq<char>) -> bool {
    ext == "mp4"@ || ext == "mov"@ || ext == "mkv"@ || ext == "mts"@ || ext == "m2ts"@ || ext
        == "mxf"@ || ext == "avi"@ || ext == "webm"@
}

/// Tells whether an extension in lower case is that of a video file.
pub fn is_video_extension(ext: &str) -> (r: bool)
    ensures
        r == video_extension(ext@),
{
    same(ext, "mp4") || same(ext, "mov") || same(ext, "mkv") || same(ext, "mts") || same(
        ext,
        "m2ts",
    ) || same(ext, "mxf") || same(ext, "avi") || same(ext, "webm")
}

/// Tells by its extension whether a file is a video.
pub fn path_is_video(path: &str) -> (r: bool)
    ensures
        r == video_extension(lower_extension_of(path@)),
        extension_of(path@) matches Some(ext) ==> (all_ascii(ext) ==> r == video_extension(
            ext.map_values(|c: char| ascii_lower(c)),
        )),
        extension_of(path@) is None ==> r == video_extension(seq![]),
{
    let ext = lower_extension(path);
    is_video_extension(ext.as_str())
}

// ── Audio streams ──────────────────────────────────────────────────────────

/// The arguments that ask for the audio streams of a file.
pub fn build_probe_args(path: &str) -> (r: Vec<String>)
    ensures
        strs(r@) == seq![
            "-v"@,
            "quiet"@,
            "-print_format"@,
            "json"@,
            "-show_streams"@,
            "-select_streams"@,
            "a"@,
            path@,
        ],
{
    let mut args: Vec<String> = Vec::new();
    assert(strs(args@) =~= seq![]);
    push_str(&mut args, "-v");
    push_str(&mut args, "quiet");
    push_str(&mut args, "-print_format");
    push_str(&mut args, "json");
    push_str(&mut args, "-show_streams");
    push_str(&mut args, "-select_streams");
    push_str(&mut args, "a");
    push_str(&mut args, path);
    assert(strs(args@) =~= seq![
        "-v"@,
        "quiet"@,
        "-print_format"@,
        "json"@,
        "-show_streams"@,
        "-select_streams"@,
        "a"@,
        path@,
    ]);
    args
}

/// The fields of a stream that are read.
pub open spec fn stream_fields() -> Seq<Seq<char>> {
    seq!["index"@, "channels"@, "codec_name"@, "sample_rate"@]
}

/// The model of [`AudioStreamInfo`].
#[verifier::ext_equal]
pub struct Stream {
    pub index: usize,
    pub channels: usize,
    pub codec: Seq<char>,
    pub rate: u32,
}

/// The streams of a list.
pub open spec fn streams_of(v: Seq<AudioStreamInfo>) -> Seq<Stream> {
    v.map_values(
        |s: AudioStreamInfo|
            Stream {
                index: s.stream_index,
                channels: s.channels,
                codec: s.codec_name@,
                rate: s.sample_rate,
            },
    )
}

/// The stream that a record tells: what is missing is 0, `unknown` or 48 kHz.
pub open spec fn stream_of(record: Seq<(Option<u64>, Option<Seq<char>>, Option<u64>)>) -> Stream {
    Stream {
        index: match record[0].0 {
            Some(n) => n as usize,
            None => 0,
        },
        channels: match record[1].0 {
            Some(n) => n as usize,
            None => 0,
        },
        codec: match record[2].1 {
            Some(t) => t,
            None => "unknown"@,
        },
        rate: match record[3].1 {
            Some(t) => match parsed_number(t, u32::MAX as nat) {
                Some(n) => n as u32,
                None => 48000,
            },
            None => 48000,
        },
    }
}

/// The number of channels of the first `n` streams, in the arithmetic of `usize`.
pub open spec fn channel_total(streams: Seq<Stream>, n: int) -> usize
    decreases n,
{
    if n <= 0 {
        0
    } else {
        vstd::wrapping::usize_specs::wrapping_add(
            channel_total(streams, n - 1),
            streams[n - 1].channels,
        )
    }
}

/// How a run of ffprobe ended.
#[derive(Clone, Debug)]
pub enum ProbeRun {
    /// It could not be run; the text says why.
    NotRun(String),
    /// It failed; the text is what it wrote to its error output.
    Failed(String),
    /// It succeeded; the text is its output.
    Output(String),
}

/// The streams that records tell.
pub open spec fn streams_told(
    records: Seq<Seq<(Option<u64>, Option<Seq<char>>, Option<u64>)>>,
) -> Seq<Stream> {
    records.map_values(|r: Seq<(Option<u64>, Option<Seq<char>>, Option<u64>)>| stream_of(r))
}

/// The streams of a file, or what went wrong.
pub open spec fn told_streams(
    records: Result<Option<Seq<Seq<(Option<u64>, Option<Seq<char>>, Option<u64>)>>>, Seq<char>>,
    path: Seq<char>,
) -> Result<Seq<Stream>, Seq<char>> {
    match records {
        Err(e) => Err("Failed to parse ffprobe JSON: "@ + e),
        Ok(None) => Err("ffprobe returned no streams array"@),
        Ok(Some(list)) => if list.len() == 0 {
            Err("No audio streams found in '"@ + path + "'"@)
        } else {
            Ok(streams_told(list))
        },
    }
}

fn read_stream(record: &Vec<JsonField>) -> (r: AudioStreamInfo)
    requires
        record@.len() == 4,
    ensures
        (Stream {
            index: r.stream_index,
            channels: r.channels,
            codec: r.codec_name@,
            rate: r.sample_rate,
        }) == stream_of(record_of(record@)),
{
    assert(record_of(record@)[0] == field_of(record@[0]));
    assert(record_of(record@)[1] == field_of(record@[1]));
    assert(record_of(record@)[2] == field_of(record@[2]));
    assert(record_of(record@)[3] == field_of(record@[3]));
    let stream_index: usize = match record[0].whole {
        Some(n) => n as usize,
        None => 0,
    };
    let channels: usize = match record[1].whole {
        Some(n) => n as usize,
        None => 0,
    };
    let codec_name = match &record[2].text {
        Some(t) => t.clone(),
        None => "unknown".to_string(),
    };
    let sample_rate: u32 = match &record[3].text {
        Some(t) => match parse_u32(t.as_str()) {
            Some(n) => n,
            None => 48000,
        },
        None => 48000,
    };
    AudioStreamInfo { stream_index, channels, codec_name, sample_rate }
}

/// The audio streams that the records of ffprobe's output tell.
pub fn probe_from_records(records: Result<Option<Vec<Vec<JsonField>>>, String>, path: &str) -> (r:
    Result<VideoAudioProbe, String>)
    requires
        records matches Ok(Some(list)) ==> forall|i: int|
            0 <= i < list@.len() ==> (#[trigger] list@[i])@.len() == 4,
    ensures
        ({
            let told = told_streams(
                match records {
                    Ok(Some(list)) => Ok(Some(records_of(list@))),
                    Ok(None) => Ok(None),
                    Err(e) => Err(e@),
                },
                path@,
            );
            match r {
                Ok(probe) => told == Ok::<Seq<Stream>, Seq<char>>(streams_of(probe.streams@))
                    && probe.total_audio_channels == channel_total(
                    streams_of(probe.streams@),
                    probe.streams@.len() as int,
                ) && probe.is_video_file,
                Err(e) => told == Err::<Seq<Stream>, Seq<char>>(e@),
            }
        }),
{
    match records {
        Err(e) => Err(concat2("Failed to parse ffprobe JSON: ", e.as_str())),
        Ok(None) => Err("ffprobe returned no streams array".to_string()),
        Ok(Some(list)) => {
            assert(records_of(list@).len() == list@.len());
            if list.len() == 0 {
                return Err(concat3("No audio streams found in '", path, "'"));
            }
            let ghost wanted = streams_told(records_of(list@));
            let mut streams: Vec<AudioStreamInfo> = Vec::new();
            let mut total: usize = 0;
            let mut i: usize = 0;
            assert(streams_of(streams@) =~= wanted.take(0));
            while i < list.len()
                invariant
                    i <= list@.len(),
                    forall|k: int| 0 <= k < list@.len() ==> (#[trigger] list@[k])@.len() == 4,
                    wanted == streams_told(records_of(list@)),
                    streams@.len() == i,
                    streams_of(streams@) == wanted.take(i as int),
                    total == channel_total(wanted, i as int),
                decreases list@.len() - i,
            {
                let stream = read_stream(&list[i]);
                assert(records_of(list@)[i as int] == record_of(list@[i as int]@));
                total = total.wrapping_add(stream.channels);
                let ghost before = streams_of(streams@);
                streams.push(stream);
                assert(streams_of(streams@) =~= before.push(wanted[i as int]));
                assert(wanted.take(i + 1) =~= wanted.take(i as int).push(wanted[i as int]));
                i += 1;
            }
            assert(wanted.take(i as int) =~= wanted);
            Ok(VideoAudioProbe { streams, total_audio_channels: total, is_video_file: true })
        },
    }
}

/// The audio streams that a run of ffprobe on a file tells.
pub fn probe_video_audio(path: &str, run: &ProbeRun) -> (r: Result<VideoAudioProbe, String>)
    ensures
        match run {
            ProbeRun::NotRun(reason) => r matches Err(e) && e@ == "Failed to run ffprobe: "@
                + reason@,
            ProbeRun::Failed(stderr) => r matches Err(e) && e@ == "ffprobe failed: "@ + stderr@,
            ProbeRun::Output(json) => {
                let told = told_streams(
                    json_records(json@, "streams"@, stream_fields()),
                    path@,
                );
                match r {
                    Ok(probe) => told == Ok::<Seq<Stream>, Seq<char>>(streams_of(probe.streams@))
                        && probe.total_audio_channels == channel_total(
                        streams_of(probe.streams@),
                        probe.streams@.len() as int,
                    ) && probe.is_video_file,
                    Err(e) => told == Err::<Seq<Stream>, Seq<char>>(e@),
                }
            },
        },
{
    match run {
        ProbeRun::NotRun(reason) => Err(concat2("Failed to run ffprobe: ", reason.as_str())),
        ProbeRun::Failed(stderr) => Err(concat2("ffprobe failed: ", stderr.as_str())),
        ProbeRun::Output(json) => {
            let fields: Vec<&'static str> = vec!["index", "channels", "codec_name", "sample_rate"];
            assert(names(fields@) =~= stream_fields());
            let records = read_records(json.as_str(), "streams", &fields);
            probe_from_records(records, path)
        },
    }
}

// ── Extracting audio ───────────────────────────────────────────────────────

/// The arguments that extract one channel of a stream as mono 24-bit PCM. The
/// stream is counted among all streams of the file.
pub fn build_extract_args(
    path: &str,
    absolute_stream_index: usize,
    channel_index: usize,
    output_wav: &str,
) -> (r: Vec<String>)
    ensures
        strs(r@) == seq![
            "-y"@,
            "-i"@,
            path@,
            "-map"@,
            "0:"@ + decimal(absolute_stream_index as nat),
            "-af"@,
            "pan=mono|FC=c"@ + decimal(channel_index as nat),
            "-c:a"@,
            "pcm_s24le"@,
            "-f"@,
            "wav"@,
            output_wav@,
        ],
{
    let mut args: Vec<String> = Vec::new();
    assert(strs(args@) =~= seq![]);
    let mut map = "0:".to_string();
    push_decimal(&mut map, absolute_stream_index as u64);
    let mut pan = "pan=mono|FC=c".to_string();
    push_decimal(&mut pan, channel_index as u64);
    let ghost map_text = map@;
    let ghost pan_text = pan@;
    push_str(&mut args, "-y");
    push_str(&mut args, "-i");
    push_str(&mut args, path);
    push_str(&mut args, "-map");
    push_string(&mut args, map);
    push_str(&mut args, "-af");
    push_string(&mut args, pan);
    push_str(&mut args, "-c:a");
    push_str(&mut args, "pcm_s24le");
    push_str(&mut args, "-f");
    push_str(&mut args, "wav");
    push_str(&mut args, output_wav);
    assert(strs(args@) =~= seq![
        "-y"@,
        "-i"@,
        path@,
        "-map"@,
        map_text,
        "-af"@,
        pan_text,
        "-c:a"@,
        "pcm_s24le"@,
        "-f"@,
        "wav"@,
        output_wav@,
    ]);
    args
}

/// The end of a text: all of it, or its last characters behind an ellipsis.
pub open spec fn tail_of(s: Seq<char>, max: nat) -> Seq<char> {
    let text = trimmed(s);
    if text.len() <= max {
        text
    } else {
        "…"@ + text.skip(text.len() - max)
    }
}

/// The last `max_chars` characters of a text without white space around it.
pub fn stderr_tail(s: &str, max_chars: usize) -> (r: String)
    ensures
        r@ == tail_of(s@, max_chars as nat),
{
    let text = trim(s);
    let chars = chars_of(text.as_str());
    let n: usize = chars.len();
    if n <= max_chars {
        return text;
    }
    let tail = string_of(&chars, n - max_chars, n);
    assert(tail@ =~= text@.skip(n - max_chars));
    concat2("…", tail.as_str())
}

/// What is told about an extraction that failed.
pub fn extraction_error(path: &str, stream: usize, channel: usize, stderr: &str) -> (r: String)
    ensures
        r@ == "ffmpeg audio extraction failed: stream "@ + decimal(stream as nat) + " channel "@
            + decimal(channel as nat) + " in '"@ + path@ + "': "@ + tail_of(stderr@, 400),
{
    let tail = stderr_tail(stderr, 400);
    let mut out = "ffmpeg audio extraction failed: stream ".to_string();
    push_decimal(&mut out, stream as u64);
    out.append(" channel ");
    push_decimal(&mut out, channel as u64);
    out.append(" in '");
    out.append(path);
    out.append("': ");
    out.append(tail.as_str());
    out
}

} // verus!
