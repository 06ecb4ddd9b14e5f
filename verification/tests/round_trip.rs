//! Clean recordings and what is decoded from them.

use ltc_timecode::ltc_decoder::{decode_ltc_samples, LtcDecodeStatus};
use ltc_timecode::ltc_encoder::{biphase_levels, compute_frame_sample_count, get_ltc_bits};
use ltc_timecode::ltc_frames::{decode_timecode_from_bits, find_frames};
use ltc_timecode::ltc_signal::{extract_bits, FULL_SCALE, UNIT};
use ltc_timecode::timecode::{increment_timecode, FrameRate, Timecode};

/// The samples of these timecodes at a sample rate, and the timecodes.
fn record(
    first: Timecode,
    frames: usize,
    sample_rate: u32,
    fps: FrameRate,
    drop_frame: bool,
    amplitude: i64,
    start: i8,
) -> (Vec<i64>, Vec<Timecode>) {
    let exact_num = sample_rate as u64 * fps.den as u64;
    let exact_den = fps.num as u64;
    let base = (exact_num / exact_den) as usize;
    let mut samples = Vec::new();
    let mut timecodes = Vec::new();
    let mut tc = first;
    let mut level = start;
    let mut accumulator = 0;
    for _ in 0..frames {
        let (length, rest) = compute_frame_sample_count(exact_num, exact_den, base, accumulator);
        accumulator = rest;
        let (levels, end) = biphase_levels(&get_ltc_bits(&tc, drop_frame), length, level);
        level = end;
        samples.extend(levels.iter().map(|l| *l as i64 * amplitude));
        timecodes.push(tc);
        tc = increment_timecode(&tc, fps, drop_frame);
    }
    (samples, timecodes)
}

fn check_given_back(first: Timecode, frames: usize, sample_rate: u32, fps: FrameRate, drop_frame: bool, amplitude: i64, start: i8) {
    let (samples, timecodes) = record(first, frames, sample_rate, fps, drop_frame, amplitude, start);
    let r = decode_ltc_samples(&samples, sample_rate, 1, fps, drop_frame);
    assert_eq!(r.status, LtcDecodeStatus::Success);
    assert_eq!(r.valid_frames as usize, frames - 2);
    assert_eq!(r.total_possible_frames as usize, frames - 2);
    let read: Vec<Timecode> = r.timecodes.iter().map(|f| f.timecode).collect();
    assert_eq!(read, timecodes[1..frames - 1].to_vec());
}

const START: Timecode = Timecode { hours: 10, minutes: 20, seconds: 30, frames: 15 };

#[test]
fn whole_samples_per_bit_are_given_back() {
    check_given_back(START, 60, 48000, FrameRate { num: 25, den: 1 }, false, FULL_SCALE / 2, 1);
    check_given_back(START, 60, 48000, FrameRate { num: 30, den: 1 }, false, FULL_SCALE, -1);
    check_given_back(START, 3, 48000, FrameRate { num: 24, den: 1 }, false, FULL_SCALE / 100, 1);
}

#[test]
fn fractional_frame_lengths_are_given_back() {
    let ntsc = FrameRate { num: 30000, den: 1001 };
    let end_of_minute = Timecode { hours: 0, minutes: 8, seconds: 59, frames: 20 };
    check_given_back(end_of_minute, 70, 48000, ntsc, true, FULL_SCALE / 3, 1);
    check_given_back(START, 70, 44100, FrameRate { num: 24000, den: 1001 }, false, FULL_SCALE / 3, -1);
}

#[test]
fn five_samples_per_bit_are_given_back() {
    check_given_back(START, 40, 10000, FrameRate { num: 25, den: 1 }, false, FULL_SCALE, 1);
}

#[test]
fn day_end_is_given_back() {
    let last = Timecode { hours: 23, minutes: 59, seconds: 59, frames: 10 };
    check_given_back(last, 50, 48000, FrameRate { num: 25, den: 1 }, false, FULL_SCALE, 1);
}

#[test]
fn words_out_of_order_are_found() {
    let fps = FrameRate { num: 25, den: 1 };
    let (mut samples, mut timecodes) = (Vec::new(), Vec::new());
    let mut level = 1;
    for i in 0..10u32 {
        let tc = Timecode { hours: i, minutes: 59 - i, seconds: 5 * i, frames: (7 * i) % 25 };
        let (levels, end) = biphase_levels(&get_ltc_bits(&tc, false), 1920, level);
        level = end;
        samples.extend(levels.iter().map(|l| *l as i64 * FULL_SCALE));
        timecodes.push(tc);
    }
    let r = decode_ltc_samples(&samples, 48000, 1, fps, false);
    assert_eq!(r.status, LtcDecodeStatus::Success);
    assert_eq!(r.valid_frames, 8);
    let read: Vec<Timecode> = r.timecodes.iter().map(|f| f.timecode).collect();
    assert_eq!(read, timecodes[1..9].to_vec());
}

#[test]
fn sampled_words_are_read_back() {
    let (samples, timecodes) =
        record(START, 5, 48000, FrameRate { num: 25, den: 1 }, false, FULL_SCALE / 2, -1);
    let bits = extract_bits(&samples, 24 * UNIT, 0, (FULL_SCALE / 4) as u64);
    assert_eq!(bits.len(), 400);
    let (valid, possible, starts) = find_frames(&bits);
    assert_eq!((valid, possible), (5, 5));
    assert_eq!(starts, vec![0, 80, 160, 240, 320]);
    let read: Vec<Timecode> = starts.iter().map(|s| decode_timecode_from_bits(&bits, *s)).collect();
    assert_eq!(read, timecodes);
}
