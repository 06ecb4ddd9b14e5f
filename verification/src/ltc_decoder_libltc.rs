//! Decoding with an external decoder: what it is fed with and the report on
//! what it found.

use vstd::prelude::*;

use crate::ltc_decoder::{
    apply_coherent_first_timecode, coherent_report, no_share, Detail, FrameTimecode,
    LtcDecodeStatus, LtcDetectionResult, Report, Share,
};
use crate::ltc_chunks::{count_frames, frames_of, sample_nanos, sample_time};
use crate::text::{decimal, push_decimal};
use crate::timecode::{FrameRate, Timecode};
use crate::wav::{
    first_channel, first_channel_values, header_of, parsed_int_samples, present,
    read_present_samples, wav_info, WavInfo,
};

verus! {

/// How many samples are handed to the external decoder at a time.
pub const FEED_SIZE: usize = 8192;

/// What the external decoder is fed with.
#[derive(Clone, Debug)]
pub struct LibltcInput {
    /// The samples of the first channel.
    pub samples: Vec<i16>,
    /// The number of complete samples of every channel.
    pub total_samples: usize,
    pub sample_rate: u32,
    /// The first guess at the length of a frame, in samples.
    pub initial_apv: i32,
}

/// How a decode with the external decoder begins.
#[derive(Clone, Debug)]
pub enum LibltcStart {
    /// The file cannot be decoded this way.
    Refused(String),
    /// There is nothing to decode.
    Empty(LtcDetectionResult),
    Ready(LibltcInput),
}

/// A twenty-fifth of a second in samples, rounded up.
pub open spec fn initial_frame_length(sample_rate: u32) -> int {
    (sample_rate as int + 24) / 25
}

/// The first guess at the length of a frame.
pub fn initial_apv(sample_rate: u32) -> (r: i32)
    ensures
        r == initial_frame_length(sample_rate),
{
    ((sample_rate as u64 + 24) / 25) as i32
}

/// What is said of a file that is not sixteen bit integer PCM.
pub open spec fn not_sixteen_bit(info: WavInfo) -> Seq<char> {
    "libltc decoder requires 16-bit integer PCM WAV (got "@ + decimal(info.bits_per_sample as nat)
        + " bit "@ + (if info.is_float {
        "Float"@
    } else {
        "Int"@
    }) + ")"@
}

/// Prepares a WAV file for the external decoder.
pub fn start_libltc(bytes: &[u8]) -> (r: LibltcStart)
    ensures
        match header_of(bytes@) {
            Err(text) => {
                &&& r matches LibltcStart::Refused(e)
                &&& e@ == "Failed to open WAV file: "@ + text
            },
            Ok(info) if info.bits_per_sample != 16 || info.is_float => {
                &&& r matches LibltcStart::Refused(e)
                &&& e@ == not_sixteen_bit(info)
            },
            Ok(info) => {
                let all = present(parsed_int_samples(bytes@), parsed_int_samples(bytes@).len() as int);
                let total = all.len() / info.channels as nat;
                if total == 0 {
                    r matches LibltcStart::Empty(x) && x.is_error("Audio file contains no samples"@)
                } else {
                    &&& r matches LibltcStart::Ready(input)
                    &&& input.samples@ == first_channel(all, info.channels as nat).map_values(
                        |s: i32| s as i16,
                    )
                    &&& input.total_samples == total
                    &&& input.sample_rate == info.sample_rate
                    &&& input.initial_apv == initial_frame_length(info.sample_rate)
                }
            },
        },
{
    let info = match wav_info(bytes) {
        Ok(info) => info,
        Err(text) => {
            let mut message = "Failed to open WAV file: ".to_string();
            message.append(text.as_str());
            return LibltcStart::Refused(message);
        },
    };
    if info.bits_per_sample != 16 || info.is_float {
        let mut message = "libltc decoder requires 16-bit integer PCM WAV (got ".to_string();
        push_decimal(&mut message, info.bits_per_sample as u64);
        message.append(" bit ");
        message.append(
            if info.is_float {
                "Float"
            } else {
                "Int"
            },
        );
        message.append(")");
        return LibltcStart::Refused(message);
    }
    let all = read_present_samples(bytes);
    let channels: usize = info.channels as usize;
    let total: usize = all.len() / channels;
    if total == 0 {
        return LibltcStart::Empty(
            LtcDetectionResult::error("Audio file contains no samples".to_string()),
        );
    }
    let left = first_channel_values(&all, channels);
    let mut samples: Vec<i16> = Vec::new();
    let mut i: usize = 0;
    while i < left.len()
        invariant
            i <= left@.len(),
            samples@.len() == i,
            forall|k: int| 0 <= k < i ==> #[trigger] samples@[k] == left@[k] as i16,
        decreases left@.len() - i,
    {
        samples.push(left[i] as i16);
        i += 1;
    }
    assert(samples@ =~= left@.map_values(|s: i32| s as i16));
    LibltcStart::Ready(
        LibltcInput {
            samples,
            total_samples: total,
            sample_rate: info.sample_rate,
            initial_apv: initial_apv(info.sample_rate),
        },
    )
}

/// A frame that the external decoder found, with the sample at which it begins. That
/// may lie before the first one.
#[derive(Clone, Copy, Debug, PartialEq, Eq, Structural)]
pub struct ExternalFrame {
    pub timecode: Timecode,
    pub off_start: i64,
}

/// The frames of the external decoder, numbered and timed.
pub open spec fn external_timecodes(frames: Seq<ExternalFrame>, sample_rate: u32) -> Seq<FrameTimecode> {
    Seq::new(
        frames.len(),
        |i: int|
            FrameTimecode {
                frame_index: i as u32,
                timecode: frames[i].timecode,
                timecode_nanos: sample_nanos(frames[i].off_start as int, sample_rate),
            },
    )
}

/// The found part of the possible frames in percent, at most a hundred.
pub open spec fn percent_found(valid: u32, possible: u32) -> Share {
    if possible == 0 {
        no_share()
    } else if valid > possible {
        Share { num: 100, den: 1 }
    } else {
        Share { num: (100 * valid) as u64, den: possible as u64 }
    }
}

/// The report on a decode with the external decoder, with all its frames.
pub open spec fn external_report(
    frames: Seq<ExternalFrame>,
    total_samples: usize,
    sample_rate: u32,
    initial_apv: i32,
    queue_length: usize,
    fps: FrameRate,
    drop_frame: bool,
) -> Report {
    let valid = frames.len() as u32;
    let possible = frames_of(total_samples, sample_rate, fps);
    let timecodes = external_timecodes(frames, sample_rate);
    Report {
        status: if valid > 0 {
            LtcDecodeStatus::Success
        } else {
            LtcDecodeStatus::NoSyncWord
        },
        detected_fps: fps,
        drop_frame,
        total_possible_frames: possible,
        valid_frames: valid,
        timecodes,
        avg_confidence: percent_found(valid, possible),
        details: seq![
            Detail::ExternalDecoder { fps },
            Detail::InitialFrameLength(initial_apv),
            Detail::QueueLength(queue_length),
        ],
        total_samples,
        sample_rate,
        first_ltc_nanos: if timecodes.len() > 0 {
            timecodes[0].timecode_nanos
        } else {
            0
        },
    }
}

/// Reports what the external decoder found.
pub fn finish_libltc(
    frames: &Vec<ExternalFrame>,
    total_samples: usize,
    sample_rate: u32,
    initial_apv: i32,
    queue_length: usize,
    fps: FrameRate,
    drop_frame: bool,
) -> (r: LtcDetectionResult)
    requires
        sample_rate > 0 || frames@.len() == 0,
        fps.den > 0,
    ensures
        r@ == coherent_report(
            external_report(
                frames@,
                total_samples,
                sample_rate,
                initial_apv,
                queue_length,
                fps,
                drop_frame,
            ),
        ),
{
    let mut timecodes: Vec<FrameTimecode> = Vec::new();
    let mut i: usize = 0;
    while i < frames.len()
        invariant
            i <= frames@.len(),
            sample_rate > 0 || frames@.len() == 0,
            timecodes@.len() == i,
            forall|k: int|
                0 <= k < i ==> #[trigger] timecodes@[k] == external_timecodes(
                    frames@,
                    sample_rate,
                )[k],
        decreases frames@.len() - i,
    {
        let f = frames[i];
        timecodes.push(
            FrameTimecode {
                frame_index: i as u32,
                timecode: f.timecode,
                timecode_nanos: sample_time(f.off_start as i128, sample_rate),
            },
        );
        i += 1;
    }
    assert(timecodes@ =~= external_timecodes(frames@, sample_rate));
    let valid: u32 = timecodes.len() as u32;
    let possible: u32 = count_frames(total_samples, sample_rate, fps);
    let confidence = if possible == 0 {
        Share { num: 0, den: 1 }
    } else if valid > possible {
        Share { num: 100, den: 1 }
    } else {
        Share { num: 100 * valid as u64, den: possible as u64 }
    };
    let first: i64 = if timecodes.len() > 0 {
        timecodes[0].timecode_nanos
    } else {
        0
    };
    let mut details: Vec<Detail> = Vec::new();
    details.push(Detail::ExternalDecoder { fps });
    details.push(Detail::InitialFrameLength(initial_apv));
    details.push(Detail::QueueLength(queue_length));
    let mut result = LtcDetectionResult {
        status: if valid > 0 {
            LtcDecodeStatus::Success
        } else {
            LtcDecodeStatus::NoSyncWord
        },
        detected_fps: fps,
        drop_frame,
        total_possible_frames: possible,
        valid_frames: valid,
        timecodes,
        avg_confidence: confidence,
        details,
        total_samples,
        sample_rate,
        first_ltc_nanos: first,
    };
    assert(result@ =~= external_report(
        frames@,
        total_samples,
        sample_rate,
        initial_apv,
        queue_length,
        fps,
        drop_frame,
    ));
    apply_coherent_first_timecode(&mut result);
    result
}

} // verus!
