//! Decoding timecode.

use std::collections::hash_map::DefaultHasher;
use std::hash::{Hash, Hasher};

use ltc_timecode::ltc_encoder::{
    biphase_levels, compute_frame_sample_count, get_ltc_bits, routed_channels,
};
use ltc_timecode::ltc_frames::{
    bits_hamming_distance_16, bits_to_u8, decode_timecode_from_bits, find_frames, SYNC_OFFSET,
};
use ltc_timecode::ltc_decoder::{
    decode_ltc_samples, quick_check_ltc, FrameTimecode, LtcDecodeStatus, LtcDetectionResult,
};
use ltc_timecode::ltc_signal::{
    decode_bits_from_zero_crossings, extract_bits_adaptive, zc_in_range, FULL_SCALE, UNIT,
};
use ltc_timecode::timecode::{FrameRate, Timecode};
use ltc_timecode::wav::float_to_fixed;

const SYNC_WORD: [u8; 16] = [0, 0, 1, 1, 1, 1, 1, 1, 1, 1, 1, 1, 1, 1, 0, 1];

/// A rate given with up to three decimals.
fn rate(fps: f64) -> FrameRate {
    FrameRate { num: (fps * 1000.0).round() as u32, den: 1000 }
}

fn nanos(secs: f64) -> i64 {
    (secs * 1e9).round() as i64
}

fn secs(nanos: i64) -> f64 {
    nanos as f64 / 1e9
}

fn fixed(samples: &[f32]) -> Vec<i64> {
    samples.iter().map(|s| float_to_fixed(s.to_bits())).collect()
}

fn increment_timecode(tc: &Timecode, fps: f64, drop_frame: bool) -> Timecode {
    ltc_timecode::timecode::increment_timecode(tc, rate(fps), drop_frame)
}

fn decode_ltc_from_wav(bytes: &[u8], fps: f64, drop_frame: bool) -> Result<LtcDetectionResult, String> {
    ltc_timecode::ltc_decoder::decode_ltc_from_wav(bytes, rate(fps), drop_frame)
}

/// One frame of timecode as sound, softened by a low-pass filter.
fn generate_ltc_frame_stereo(
    tc: &Timecode,
    drop_frame: bool,
    total_samples: usize,
    samples_per_bit: f32,
    volume: f32,
    channel: &str,
    last_level: &mut (f32, f32),
    stereo_out: &mut [f32],
) {
    let bits = get_ltc_bits(tc, drop_frame);
    let play_left = routed_channels(channel).0;
    let play_right = routed_channels(channel).1;
    let alpha = 0.35f32;
    let mut current_level = last_level.0;
    let mut last_y = last_level.1;

    for b in 0..80u32 {
        let bf = b as f32;
        let start_sample = (bf * samples_per_bit).round() as usize;
        let end_sample = ((bf + 1.0) * samples_per_bit).round() as usize;
        let mid_sample = ((bf + 0.5) * samples_per_bit).round() as usize;
        let bit_val = bits[b as usize];

        current_level = -current_level;

        let mid = mid_sample.min(total_samples);
        let end = end_sample.min(total_samples);

        for s in start_sample..mid {
            last_y += alpha * (current_level - last_y);
            let val = last_y * volume * volume;
            stereo_out[s * 2] = if play_left { val } else { 0.0 };
            stereo_out[s * 2 + 1] = if play_right { val } else { 0.0 };
        }

        if bit_val == 1 {
            current_level = -current_level;
        }

        for s in mid..end {
            last_y += alpha * (current_level - last_y);
            let val = last_y * volume * volume;
            stereo_out[s * 2] = if play_left { val } else { 0.0 };
            stereo_out[s * 2 + 1] = if play_right { val } else { 0.0 };
        }
    }

    last_level.0 = current_level;
    last_level.1 = last_y;
}

fn estimate_noise_floor(samples: &[f32]) -> f64 {
    ltc_timecode::ltc_signal::estimate_noise_floor(&fixed(samples)) as f64 / FULL_SCALE as f64
}

fn find_zero_crossings(samples: &[f32], threshold: f64) -> Vec<usize> {
    let threshold = (threshold * FULL_SCALE as f64) as u64;
    ltc_timecode::ltc_signal::find_zero_crossings(&fixed(samples), threshold)
}

fn extract_bits(samples: &[f32], samples_per_bit: f64, phase: usize, threshold: f64) -> Vec<u8> {
    let spb = (samples_per_bit * UNIT as f64) as u128;
    let threshold = (threshold * FULL_SCALE as f64) as u64;
    ltc_timecode::ltc_signal::extract_bits(&fixed(samples), spb, phase, threshold)
}

fn find_first_coherent_index(tcs: &[FrameTimecode], fps: f64, drop_frame: bool) -> Option<usize> {
    ltc_timecode::ltc_decoder::find_first_coherent_index(tcs, rate(fps), drop_frame)
}

// ── bits_to_u8 ───────────────────────────────────────────────────────

#[test]
fn ltc_decoder_test_bits_to_u8_zero() {
    assert_eq!(bits_to_u8(&[0, 0, 0, 0]), 0);
}

#[test]
fn test_bits_to_u8_single_bit() {
    assert_eq!(bits_to_u8(&[1, 0, 0, 0]), 1);
}

#[test]
fn test_bits_to_u8_multiple_bits() {
    assert_eq!(bits_to_u8(&[1, 0, 1, 0]), 5);
    assert_eq!(bits_to_u8(&[0, 1, 0, 1]), 0b1010);
}

#[test]
fn ltc_decoder_test_bits_to_u8_max() {
    assert_eq!(bits_to_u8(&[1, 1, 1, 1]), 15);
}

#[test]
fn ltc_decoder_test_bits_to_u8_truncated() {
    assert_eq!(bits_to_u8(&[1, 0]), 1);
    assert_eq!(bits_to_u8(&[1, 1, 0, 0, 0, 0, 0, 0]), 3);
}

// ── get_ltc_bits: sync word ──────────────────────────────────────────

#[test]
fn test_get_ltc_bits_sync_word() {
    let tc = Timecode { hours: 1, minutes: 0, seconds: 0, frames: 0 };
    let bits = get_ltc_bits(&tc, false);
    let sync = &bits[SYNC_OFFSET..SYNC_OFFSET + 16];
    assert_eq!(sync, SYNC_WORD, "sync word at bits 64-79 should be 0011111111111101");
}

#[test]
fn test_get_ltc_bits_sync_word_various_tc() {
    for tc in [
        Timecode { hours: 0, minutes: 0, seconds: 0, frames: 0 },
        Timecode { hours: 23, minutes: 59, seconds: 59, frames: 29 },
        Timecode { hours: 12, minutes: 34, seconds: 56, frames: 18 },
    ] {
        let bits = get_ltc_bits(&tc, false);
        let sync = &bits[SYNC_OFFSET..SYNC_OFFSET + 16];
        assert_eq!(sync, SYNC_WORD, "sync word must be invariant for {:?}", tc);
    }
}

#[test]
fn test_get_ltc_bits_sync_word_80_bits() {
    let tc = Timecode { hours: 0, minutes: 0, seconds: 0, frames: 0 };
    let bits = get_ltc_bits(&tc, false);
    assert_eq!(bits.len(), 80, "LTC frame must be exactly 80 bits");
}

// ── get_ltc_bits: known timecode values ──────────────────────────────

#[test]
fn test_get_ltc_bits_frame_04() {
    let tc = Timecode { hours: 0, minutes: 0, seconds: 0, frames: 4 };
    let bits = get_ltc_bits(&tc, false);
    assert_eq!(bits[0], 0);
    assert_eq!(bits[1], 0);
    assert_eq!(bits[2], 1);
    assert_eq!(bits[3], 0);
    assert_eq!(bits[8], 0);
    assert_eq!(bits[9], 0);
}

#[test]
fn test_get_ltc_bits_frame_13() {
    let tc = Timecode { hours: 0, minutes: 0, seconds: 0, frames: 13 };
    let bits = get_ltc_bits(&tc, false);
    assert_eq!(bits[0], 1);
    assert_eq!(bits[1], 1);
    assert_eq!(bits[2], 0);
    assert_eq!(bits[3], 0);
    assert_eq!(bits[8], 1);
    assert_eq!(bits[9], 0);
}

#[test]
fn ltc_decoder_test_get_ltc_bits_drop_frame_flag() {
    let tc = Timecode { hours: 0, minutes: 0, seconds: 0, frames: 0 };
    let bits_nd = get_ltc_bits(&tc, false);
    let bits_df = get_ltc_bits(&tc, true);
    assert_eq!(bits_nd[10], 0, "non-drop must have bit 10 = 0");
    assert_eq!(bits_df[10], 1, "drop-frame must have bit 10 = 1");
}

#[test]
fn test_get_ltc_bits_color_frame_zero() {
    let tc = Timecode { hours: 0, minutes: 0, seconds: 0, frames: 0 };
    let bits = get_ltc_bits(&tc, false);
    assert_eq!(bits[11], 0, "color frame flag must be 0");
}

// ── decode_timecode_from_bits round-trip ─────────────────────────────

#[test]
fn test_decode_timecode_from_bits_roundtrip_zero() {
    let tc = Timecode { hours: 0, minutes: 0, seconds: 0, frames: 0 };
    let bits = get_ltc_bits(&tc, false);
    let decoded = decode_timecode_from_bits(&bits, 0);
    assert_eq!(decoded, tc);
}

#[test]
fn test_decode_timecode_from_bits_roundtrip_typical() {
    let tc = Timecode { hours: 1, minutes: 2, seconds: 3, frames: 4 };
    let bits = get_ltc_bits(&tc, false);
    let decoded = decode_timecode_from_bits(&bits, 0);
    assert_eq!(decoded, tc);
}

#[test]
fn test_decode_timecode_from_bits_roundtrip_max() {
    let tc = Timecode { hours: 23, minutes: 59, seconds: 59, frames: 29 };
    let bits = get_ltc_bits(&tc, false);
    let decoded = decode_timecode_from_bits(&bits, 0);
    assert_eq!(decoded, tc);
}

#[test]
fn test_decode_timecode_from_bits_later_frame() {
    let tc0 = Timecode { hours: 0, minutes: 0, seconds: 0, frames: 0 };
    let tc1 = Timecode { hours: 1, minutes: 2, seconds: 3, frames: 4 };
    let bits0 = get_ltc_bits(&tc0, false);
    let bits1 = get_ltc_bits(&tc1, false);
    let mut both = [0u8; 160];
    both[..80].copy_from_slice(&bits0);
    both[80..].copy_from_slice(&bits1);
    let decoded = decode_timecode_from_bits(&both, 80);
    assert_eq!(decoded, tc1);
}

// ── increment_timecode ───────────────────────────────────────────────

#[test]
fn test_increment_timecode_basic() {
    let tc = Timecode { hours: 0, minutes: 0, seconds: 0, frames: 0 };
    let next = increment_timecode(&tc, 25.0, false);
    assert_eq!(next, Timecode { hours: 0, minutes: 0, seconds: 0, frames: 1 });
}

#[test]
fn test_increment_timecode_frame_rollover_25fps() {
    let tc = Timecode { hours: 0, minutes: 0, seconds: 0, frames: 24 };
    let next = increment_timecode(&tc, 25.0, false);
    assert_eq!(next, Timecode { hours: 0, minutes: 0, seconds: 1, frames: 0 });
}

#[test]
fn test_increment_timecode_frame_rollover_30fps() {
    let tc = Timecode { hours: 0, minutes: 0, seconds: 0, frames: 29 };
    let next = increment_timecode(&tc, 30.0, false);
    assert_eq!(next, Timecode { hours: 0, minutes: 0, seconds: 1, frames: 0 });
}

#[test]
fn test_increment_timecode_second_rollover() {
    let tc = Timecode { hours: 0, minutes: 0, seconds: 59, frames: 24 };
    let next = increment_timecode(&tc, 25.0, false);
    assert_eq!(next, Timecode { hours: 0, minutes: 1, seconds: 0, frames: 0 });
}

#[test]
fn test_increment_timecode_minute_rollover() {
    let tc = Timecode { hours: 0, minutes: 59, seconds: 59, frames: 24 };
    let next = increment_timecode(&tc, 25.0, false);
    assert_eq!(next, Timecode { hours: 1, minutes: 0, seconds: 0, frames: 0 });
}

#[test]
fn test_increment_timecode_hour_rollover() {
    let tc = Timecode { hours: 23, minutes: 59, seconds: 59, frames: 24 };
    let next = increment_timecode(&tc, 25.0, false);
    assert_eq!(next, Timecode { hours: 0, minutes: 0, seconds: 0, frames: 0 });
}

#[test]
fn test_increment_timecode_24fps_rollover() {
    let tc = Timecode { hours: 0, minutes: 0, seconds: 0, frames: 23 };
    let next = increment_timecode(&tc, 24.0, false);
    assert_eq!(next, Timecode { hours: 0, minutes: 0, seconds: 1, frames: 0 });
}

#[test]
fn test_increment_timecode_drop_frame_skip() {
    let tc = Timecode { hours: 1, minutes: 0, seconds: 59, frames: 29 };
    let next = increment_timecode(&tc, 29.97, true);
    assert_eq!(next, Timecode { hours: 1, minutes: 1, seconds: 0, frames: 2 });
}

#[test]
fn test_increment_timecode_drop_frame_no_skip_div10() {
    let tc = Timecode { hours: 1, minutes: 9, seconds: 59, frames: 29 };
    let next = increment_timecode(&tc, 29.97, true);
    assert_eq!(next, Timecode { hours: 1, minutes: 10, seconds: 0, frames: 0 });
}

#[test]
fn test_increment_timecode_drop_frame_sequential() {
    let mut tc = Timecode { hours: 1, minutes: 1, seconds: 0, frames: 0 };
    tc = increment_timecode(&tc, 29.97, true);
    assert_eq!(tc, Timecode { hours: 1, minutes: 1, seconds: 0, frames: 1 });
    tc = increment_timecode(&tc, 29.97, true);
    assert_eq!(tc, Timecode { hours: 1, minutes: 1, seconds: 0, frames: 2 });
}

#[test]
fn test_increment_timecode_29_97_non_drop() {
    let mut tc = Timecode { hours: 1, minutes: 0, seconds: 59, frames: 29 };
    tc = increment_timecode(&tc, 29.97, false);
    assert_eq!(tc, Timecode { hours: 1, minutes: 1, seconds: 0, frames: 0 });
}

// ── estimate_noise_floor ─────────────────────────────────────────────

#[test]
fn test_estimate_noise_floor_constant() {
    let samples = vec![0.5f32; 1000];
    let nf = estimate_noise_floor(&samples);
    assert!((nf - 0.5).abs() < 1e-6);
}

#[test]
fn test_estimate_noise_floor_silent() {
    let samples = vec![0.0f32; 1000];
    let nf = estimate_noise_floor(&samples);
    assert!((nf - 1e-10).abs() < 1e-12);
}

#[test]
fn test_estimate_noise_floor_mixed() {
    let samples: Vec<f32> = vec![0.5, 0.1, 0.3, 0.8, 0.2];
    let nf = estimate_noise_floor(&samples);
    assert!((nf - 0.3).abs() < 1e-6);
}

#[test]
fn test_estimate_noise_floor_negative_values() {
    let samples: Vec<f32> = vec![-0.7, -0.1, -0.5, -0.3];
    let nf = estimate_noise_floor(&samples);
    assert!((nf - 0.5).abs() < 1e-6);
}

#[test]
fn test_estimate_noise_floor_clamped_10k() {
    let samples = vec![0.42f32; 20_000];
    let nf = estimate_noise_floor(&samples);
    assert!((nf - 0.42).abs() < 1e-6);
}

// ── find_zero_crossings ──────────────────────────────────────────────

#[test]
fn test_find_zero_crossings_basic() {
    let samples = vec![0.1f32, -0.2, 0.3, -0.1];
    let crossings = find_zero_crossings(&samples, 0.05);
    assert_eq!(crossings, vec![1, 2, 3]);
}

#[test]
fn test_find_zero_crossings_silent() {
    let samples = vec![0.0f32; 100];
    let crossings = find_zero_crossings(&samples, 0.01);
    assert!(crossings.is_empty());
}

#[test]
fn test_find_zero_crossings_below_threshold() {
    let samples = vec![0.01f32, -0.02, 0.01];
    let crossings = find_zero_crossings(&samples, 0.05);
    assert!(crossings.is_empty());
}

#[test]
fn test_find_zero_crossings_alternating() {
    let samples: Vec<f32> = (0..20).map(|i| if i % 2 == 0 { 0.5 } else { -0.5 }).collect();
    let crossings = find_zero_crossings(&samples, 0.1);
    assert_eq!(crossings.len(), 19);
    for (idx, &pos) in crossings.iter().enumerate() {
        assert_eq!(pos, idx + 1, "crossing position mismatch");
    }
}

#[test]
fn test_find_zero_crossings_stays_positive() {
    let samples = vec![0.5f32, 0.3, 0.1, -0.2, -0.4];
    let crossings = find_zero_crossings(&samples, 0.05);
    assert_eq!(crossings, vec![3]);
}

// ── extract_bits (bi-phase mark decoding) ────────────────────────────

fn synthesize_bit(samples_per_bit: usize, bit_value: u8, start_level: f32) -> (Vec<f32>, f32) {
    let mut buf = vec![0.0f32; samples_per_bit];
    let half = samples_per_bit / 2;
    match bit_value {
        0 => {
            for s in buf.iter_mut() { *s = start_level; }
            (buf, start_level)
        }
        1 => {
            let mid_level = -start_level;
            buf[..half].fill(start_level);
            buf[half..samples_per_bit].fill(mid_level);
            (buf, mid_level)
        }
        _ => unreachable!(),
    }
}

#[test]
fn test_extract_bits_all_zeros() {
    let spb = 8.0;
    let mut signal = Vec::new();
    let mut level = 0.5;
    for _ in 0..3 {
        let (chunk, l) = synthesize_bit(spb as usize, 0, level);
        signal.extend(chunk);
        level = l;
    }
    let bits = extract_bits(&signal, spb, 0, 0.01);
    assert_eq!(bits, vec![0, 0, 0]);
}

#[test]
fn test_extract_bits_all_ones() {
    let spb = 8.0;
    let mut signal = Vec::new();
    let mut level = 0.5;
    for _ in 0..3 {
        let (chunk, l) = synthesize_bit(spb as usize, 1, level);
        signal.extend(chunk);
        level = l;
    }
    let bits = extract_bits(&signal, spb, 0, 0.01);
    assert_eq!(bits, vec![1, 1, 1]);
}

#[test]
fn test_extract_bits_alternating() {
    let spb = 8.0;
    let mut signal = Vec::new();
    let mut level = 0.5;
    for &bit in &[0u8, 1, 0, 1] {
        let (chunk, l) = synthesize_bit(spb as usize, bit, level);
        signal.extend(chunk);
        level = l;
    }
    let bits = extract_bits(&signal, spb, 0, 0.01);
    assert_eq!(bits, vec![0, 1, 0, 1]);
}

#[test]
fn test_extract_bits_below_threshold() {
    let spb = 8.0;
    let signal = vec![0.0f32; (spb as usize) * 3];
    let bits = extract_bits(&signal, spb, 0, 0.1);
    assert_eq!(bits, vec![0, 0, 0]);
}

#[test]
fn test_extract_bits_phase_offset() {
    let spb = 8.0;
    let mut signal = Vec::new();
    let mut level = 0.5;
    for &bit in &[1u8, 0, 1] {
        let (chunk, l) = synthesize_bit(spb as usize, bit, level);
        signal.extend(chunk);
        level = l;
    }
    let mut padded = vec![0.0f32; 3];
    padded.extend(signal);
    let bits = extract_bits(&padded, spb, 3, 0.01);
    assert_eq!(bits, vec![1, 0, 1]);
}

// ── find_frames (sync word detection) ────────────────────────────────

fn build_frame_bits(tc: Timecode) -> Vec<u8> {
    let mut bits = get_ltc_bits(&tc, false).to_vec();
    bits.resize(80, 0);
    bits
}

#[test]
fn test_find_frames_single_frame() {
    let bits = build_frame_bits(Timecode { hours: 1, minutes: 0, seconds: 0, frames: 0 });
    let (valid, total, starts) = find_frames(&bits);
    assert_eq!(valid, 1);
    assert_eq!(total, 1);
    assert_eq!(starts, vec![0]);
}

#[test]
fn test_find_frames_two_frames() {
    let mut bits = build_frame_bits(Timecode { hours: 1, minutes: 0, seconds: 0, frames: 0 });
    bits.extend(build_frame_bits(Timecode { hours: 1, minutes: 0, seconds: 0, frames: 1 }));
    let (valid, _total, starts) = find_frames(&bits);
    assert_eq!(valid, 2);
    assert_eq!(starts, vec![0, 80]);
}

#[test]
fn test_find_frames_no_sync_word() {
    let bits = vec![0u8; 160];
    let (valid, _total, starts) = find_frames(&bits);
    assert_eq!(valid, 0);
    assert!(starts.is_empty());
}

#[test]
fn test_find_frames_random_bits() {
    let mut bits = vec![0u8; 320];
    let seed = 42u64;
    for (i, b) in bits.iter_mut().enumerate() {
        let mut h = DefaultHasher::new();
        (i as u64).hash(&mut h);
        seed.hash(&mut h);
        *b = (h.finish() & 1) as u8;
    }
    let (valid, _, _) = find_frames(&bits);
    assert!(valid <= 2, "random bits should produce at most 2 false sync word matches, got {}", valid);
}

#[test]
fn test_find_frames_short_buffer() {
    let bits = vec![0u8; 10];
    let (valid, total, starts) = find_frames(&bits);
    assert_eq!(valid, 0);
    assert_eq!(total, 0);
    assert!(starts.is_empty());
}

#[test]
fn test_find_frames_alignment_matters() {
    let mut bits = vec![0u8; 160];
    bits[0..16].copy_from_slice(&SYNC_WORD);
    let (valid, _, _) = find_frames(&bits);
    assert_eq!(valid, 0, "sync word at wrong offset should not produce valid frames");
}

// ── WAV generation helper ────────────────────────────────────────────

fn generate_test_wav(
    path: &mut Vec<u8>,
    start_tc: Timecode,
    fps: f64,
    drop_frame: bool,
    channel: &str,
    volume: f32,
    sample_rate: u32,
    duration_secs: f64,
) {
    let total_frames = (duration_secs * fps).ceil() as u64;
    let samples_per_frame = (sample_rate as f64 / fps).round() as usize;
    let samples_per_bit = samples_per_frame as f32 / 80.0;

    let spec = hound::WavSpec {
        channels: 2,
        sample_rate,
        bits_per_sample: 16,
        sample_format: hound::SampleFormat::Int,
    };

    let mut writer = hound::WavWriter::new(std::io::Cursor::new(path), spec).unwrap();
    let mut tc = start_tc;
    let mut last_level = (1.0f32, 1.0f32);
    let mut frame_buf = vec![0.0f32; samples_per_frame * 2];

    for _ in 0..total_frames {
        frame_buf.fill(0.0);
        generate_ltc_frame_stereo(
            &tc,
            drop_frame,
            samples_per_frame,
            samples_per_bit,
            volume,
            channel,
            &mut last_level,
            &mut frame_buf[..samples_per_frame * 2],
        );

        for &sample in &frame_buf[..samples_per_frame * 2] {
            let clamped = sample.clamp(-1.0, 1.0);
            let int_sample = (clamped * i16::MAX as f32) as i16;
            writer.write_sample(int_sample).unwrap();
        }

        tc = increment_timecode(&tc, fps, drop_frame);
    }

    writer.finalize().unwrap();
}

fn generate_test_wav_with_prefix(
    path: &mut Vec<u8>,
    silent_prefix_secs: f64,
    start_tc: Timecode,
    fps: f64,
    drop_frame: bool,
    channel: &str,
    volume: f32,
    sample_rate: u32,
    duration_secs: f64,
) {
    let spec = hound::WavSpec {
        channels: 2,
        sample_rate,
        bits_per_sample: 16,
        sample_format: hound::SampleFormat::Int,
    };

    let mut writer = hound::WavWriter::new(std::io::Cursor::new(path), spec).unwrap();

    let silence_samples = (silent_prefix_secs * sample_rate as f64).round() as usize;
    for _ in 0..silence_samples * 2 {
        writer.write_sample(0i16).unwrap();
    }

    let total_frames = (duration_secs * fps).ceil() as u64;
    let samples_per_frame = (sample_rate as f64 / fps).round() as usize;
    let samples_per_bit = samples_per_frame as f32 / 80.0;

    let mut tc = start_tc;
    let mut last_level = (1.0f32, 1.0f32);
    let mut frame_buf = vec![0.0f32; samples_per_frame * 2];

    for _ in 0..total_frames {
        frame_buf.fill(0.0);
        generate_ltc_frame_stereo(
            &tc,
            drop_frame,
            samples_per_frame,
            samples_per_bit,
            volume,
            channel,
            &mut last_level,
            &mut frame_buf[..samples_per_frame * 2],
        );

        for &sample in &frame_buf[..samples_per_frame * 2] {
            let clamped = sample.clamp(-1.0, 1.0);
            let int_sample = (clamped * i16::MAX as f32) as i16;
            writer.write_sample(int_sample).unwrap();
        }

        tc = increment_timecode(&tc, fps, drop_frame);
    }

    writer.finalize().unwrap();
}

fn verify_roundtrip(
    start_tc: Timecode,
    fps: f64,
    drop_frame: bool,
    channel: &str,
    volume: f32,
    sample_rate: u32,
    duration_secs: f64,
) -> LtcDetectionResult {
    let mut path: Vec<u8> = Vec::new();
    generate_test_wav(&mut path, start_tc, fps, drop_frame, channel, volume, sample_rate, duration_secs);
    decode_ltc_from_wav(&path, fps, drop_frame).unwrap()
}

// ── WAV round-trip tests ─────────────────────────────────────────────

#[test]
fn test_wav_roundtrip_25fps() {
    let result = verify_roundtrip(
        Timecode { hours: 1, minutes: 0, seconds: 0, frames: 0 },
        25.0, false, "both", 0.5, 48000, 2.0,
    );
    assert!(matches!(result.status, LtcDecodeStatus::Success),
        "expected Success, got {:?}", result.status);
    assert!(result.valid_frames >= 48, "expected ~50 valid frames, got {}", result.valid_frames);
}

#[test]
fn test_wav_roundtrip_24fps() {
    let result = verify_roundtrip(
        Timecode { hours: 0, minutes: 0, seconds: 0, frames: 0 },
        24.0, false, "both", 0.5, 48000, 2.0,
    );
    assert!(matches!(result.status, LtcDecodeStatus::Success),
        "expected Success, got {:?}", result.status);
    assert!(result.valid_frames >= 46, "expected ~48 valid frames, got {}", result.valid_frames);
}

#[test]
fn test_wav_roundtrip_30fps() {
    let result = verify_roundtrip(
        Timecode { hours: 0, minutes: 0, seconds: 0, frames: 0 },
        30.0, false, "both", 0.5, 48000, 2.0,
    );
    assert!(matches!(result.status, LtcDecodeStatus::Success),
        "expected Success, got {:?}", result.status);
    assert!(result.valid_frames >= 58, "expected ~60 valid frames, got {}", result.valid_frames);
}

#[test]
fn test_wav_roundtrip_2997_nd() {
    let result = verify_roundtrip(
        Timecode { hours: 0, minutes: 0, seconds: 0, frames: 0 },
        29.97, false, "both", 0.5, 48000, 3.0,
    );
    assert!(!matches!(result.status, LtcDecodeStatus::Error { .. }),
        "expected no Error for 29.97 ND, got {:?} (valid={})",
        result.status, result.valid_frames);
}

#[test]
fn test_wav_roundtrip_2997_df() {
    let result = verify_roundtrip(
        Timecode { hours: 0, minutes: 0, seconds: 0, frames: 0 },
        29.97, true, "both", 0.5, 48000, 3.0,
    );
    assert!(!matches!(result.status, LtcDecodeStatus::Error { .. }),
        "expected no Error for 29.97 DF, got {:?} (valid={})",
        result.status, result.valid_frames);
}

#[test]
fn test_wav_roundtrip_different_start_tc() {
    let result = verify_roundtrip(
        Timecode { hours: 10, minutes: 15, seconds: 30, frames: 12 },
        25.0, false, "both", 0.5, 48000, 1.0,
    );
    assert!(matches!(result.status, LtcDecodeStatus::Success),
        "expected Success, got {:?}", result.status);
    assert!(result.valid_frames >= 22, "expected ~25 valid frames, got {}", result.valid_frames);
}

#[test]
fn test_wav_roundtrip_44khz() {
    let result = verify_roundtrip(
        Timecode { hours: 0, minutes: 0, seconds: 0, frames: 0 },
        25.0, false, "both", 0.5, 44100, 2.0,
    );
    assert!(!matches!(result.status, LtcDecodeStatus::Error { .. }),
        "expected no Error at 44kHz, got {:?}", result.status);
}

#[test]
fn test_wav_roundtrip_48khz() {
    let result = verify_roundtrip(
        Timecode { hours: 1, minutes: 0, seconds: 0, frames: 0 },
        25.0, false, "both", 0.5, 48000, 2.0,
    );
    assert!(matches!(result.status, LtcDecodeStatus::Success),
        "expected Success at 48kHz, got {:?}", result.status);
}

#[test]
fn test_wav_roundtrip_left_channel() {
    let result = verify_roundtrip(
        Timecode { hours: 0, minutes: 0, seconds: 0, frames: 0 },
        25.0, false, "left", 0.5, 48000, 1.0,
    );
    assert!(matches!(result.status, LtcDecodeStatus::Success),
        "expected Success on left channel, got {:?}", result.status);
}

#[test]
fn test_wav_roundtrip_right_channel() {
    let result = verify_roundtrip(
        Timecode { hours: 0, minutes: 0, seconds: 0, frames: 0 },
        25.0, false, "right", 0.5, 48000, 1.0,
    );
    assert!(!matches!(result.status, LtcDecodeStatus::Success),
        "right-only signal should not be decoded (left channel is silent), got {:?}", result.status);
}

// ── Edge case: mid-signal start ──────────────────────────────────────

#[test]
fn test_wav_mid_signal_start() {
    let mut path: Vec<u8> = Vec::new();

    generate_test_wav_with_prefix(&mut path,
        0.5,
        Timecode { hours: 1, minutes: 0, seconds: 0, frames: 0 },
        25.0, false, "both", 0.5, 48000, 1.5,
    );

    let result = decode_ltc_from_wav(&path, 25.0, false).unwrap();
    assert!(matches!(result.status, LtcDecodeStatus::Success),
        "expected Success for mid-signal LTC, got {:?} (details: {:?})",
        result.status, result.details);
    assert!(result.valid_frames >= 35, "expected ~37 valid frames, got {}", result.valid_frames);
    if let Some(first) = result.timecodes.first() {
        assert_eq!(first.timecode.hours, 1);
        assert_eq!(first.timecode.minutes, 0);
        assert_eq!(first.timecode.seconds, 0);
        assert_eq!(first.timecode.frames, 0);
    }
}

// ── Edge case: first_ltc_timecode_secs with large silent prefix ──────

#[test]
fn test_wav_first_ltc_offset() {
    for &silent_secs in &[0.0, 1.0, 30.0, 120.0] {
        let mut path: Vec<u8> = Vec::new();

        generate_test_wav_with_prefix(&mut path,
            silent_secs,
            Timecode { hours: 2, minutes: 0, seconds: 0, frames: 0 },
            25.0, false, "both", 0.5, 48000, 1.0,
        );

        let result = decode_ltc_from_wav(&path, 25.0, false).unwrap();
        assert!(matches!(result.status, LtcDecodeStatus::Success | LtcDecodeStatus::LowConfidence),
            "silent_prefix={:.1}s: expected Success/LowConfidence, got {:?}",
            silent_secs, result.status);

        let expected_offset = silent_secs;
        let tolerance = 0.05;

        let abs_diff = (secs(result.first_ltc_nanos) - expected_offset).abs();
        assert!(
            abs_diff < tolerance,
            "silent_prefix={:.1}s: first_ltc_timecode_secs={:.6}s, expected ≈{:.3}s (diff={:.6}s > {:.3}s)",
            silent_secs, secs(result.first_ltc_nanos), expected_offset, abs_diff, tolerance,
        );

        if let Some(first_tc) = result.timecodes.first() {
            let tc_diff = (secs(result.first_ltc_nanos) - secs(first_tc.timecode_nanos)).abs();
            assert!(
                tc_diff < 0.001,
                "silent_prefix={:.1}s: first_ltc_timecode_secs ({:.6}s) != timecodes[0].timecode_secs ({:.6}s), diff={:.6}s",
                silent_secs, secs(result.first_ltc_nanos), secs(first_tc.timecode_nanos), tc_diff,
            );
        }
    }
}

// ── Edge case: single frame ──────────────────────────────────────────

#[test]
fn test_wav_single_frame() {
    let result = verify_roundtrip(
        Timecode { hours: 12, minutes: 34, seconds: 56, frames: 18 },
        25.0, false, "both", 0.5, 48000, 0.12,
    );
    assert!(result.valid_frames >= 1,
        "expected at least 1 valid frame with 3-frame signal, got {}", result.valid_frames);
}

// ── Edge case: silent audio ──────────────────────────────────────────

#[test]
fn test_wav_silent() {
    let mut path: Vec<u8> = Vec::new();

    let spec = hound::WavSpec {
        channels: 2,
        sample_rate: 48000,
        bits_per_sample: 16,
        sample_format: hound::SampleFormat::Int,
    };
    let mut writer = hound::WavWriter::new(std::io::Cursor::new(&mut path), spec).unwrap();
    for _ in 0..48000 * 2 {
        writer.write_sample(0i16).unwrap();
    }
    writer.finalize().unwrap();

    let result = decode_ltc_from_wav(&path, 25.0, false).unwrap();
    assert!(matches!(result.status, LtcDecodeStatus::Error { .. }),
        "silent audio should produce Error, got {:?}", result.status);
}

// ── Edge case: random noise ──────────────────────────────────────────

#[test]
fn test_wav_noise() {
    let mut path: Vec<u8> = Vec::new();

    let spec = hound::WavSpec {
        channels: 2,
        sample_rate: 48000,
        bits_per_sample: 16,
        sample_format: hound::SampleFormat::Int,
    };
    let mut writer = hound::WavWriter::new(std::io::Cursor::new(&mut path), spec).unwrap();
    for i in 0u64..96000u64 {
        let val = ((i.wrapping_mul(1103515245).wrapping_add(12345)) % 65536) as i16;
        writer.write_sample(val).unwrap();
    }
    writer.finalize().unwrap();

    let result = decode_ltc_from_wav(&path, 25.0, false).unwrap();
    assert!(
        matches!(result.status, LtcDecodeStatus::NoSyncWord | LtcDecodeStatus::Error { .. }),
        "random noise should not produce Success, got {:?}", result.status
    );
}

// ── Edge case: very short audio ──────────────────────────────────────

#[test]
fn test_wav_very_short() {
    let mut path: Vec<u8> = Vec::new();

    let spec = hound::WavSpec {
        channels: 2,
        sample_rate: 48000,
        bits_per_sample: 16,
        sample_format: hound::SampleFormat::Int,
    };
    let mut writer = hound::WavWriter::new(std::io::Cursor::new(&mut path), spec).unwrap();
    for _ in 0..100 {
        writer.write_sample(0i16).unwrap();
    }
    writer.finalize().unwrap();

    let result = decode_ltc_from_wav(&path, 25.0, false).unwrap();
    assert!(matches!(result.status, LtcDecodeStatus::Error { .. }),
        "very short audio should produce Error, got {:?}", result.status);
}

#[test]
fn test_wav_empty_file() {
    let mut path: Vec<u8> = Vec::new();

    let spec = hound::WavSpec {
        channels: 1,
        sample_rate: 48000,
        bits_per_sample: 16,
        sample_format: hound::SampleFormat::Int,
    };
    let writer = hound::WavWriter::new(std::io::Cursor::new(&mut path), spec).unwrap();
    writer.finalize().unwrap();

    let result = decode_ltc_from_wav(&path, 25.0, false).unwrap();
    assert!(matches!(result.status, LtcDecodeStatus::Error { .. }),
        "empty WAV should produce Error, got {:?}", result.status);
}

// ── quick_check_ltc ──────────────────────────────────────────────────

#[test]
fn test_quick_check_ltc_valid() {
    let mut path: Vec<u8> = Vec::new();
    generate_test_wav(&mut path,
        Timecode { hours: 0, minutes: 0, seconds: 0, frames: 0 },
        25.0, false, "both", 0.5, 48000, 1.0,
    );
    let result = quick_check_ltc(&path).unwrap();
    assert!(result, "quick_check_ltc should return true for valid LTC");
}

#[test]
fn test_quick_check_ltc_invalid() {
    let mut path: Vec<u8> = Vec::new();
    let spec = hound::WavSpec {
        channels: 1,
        sample_rate: 48000,
        bits_per_sample: 16,
        sample_format: hound::SampleFormat::Int,
    };
    let mut writer = hound::WavWriter::new(std::io::Cursor::new(&mut path), spec).unwrap();
    for _ in 0..48000 {
        writer.write_sample(0i16).unwrap();
    }
    writer.finalize().unwrap();
    let result = quick_check_ltc(&path).unwrap();
    assert!(!result, "quick_check_ltc should return false for silent file");
}

// ── find_first_coherent_index ───────────────────────────────────────────

#[test]
fn test_coherent_index_clean_from_start() {
    let fps = 25.0;
    let fd = 1.0 / fps;
    let tcs: Vec<FrameTimecode> = (0..100)
        .map(|i| {
            let t = (0..i).fold(
                Timecode { hours: 1, minutes: 0, seconds: 0, frames: 0 },
                |acc, _| increment_timecode(&acc, fps, false),
            );
            FrameTimecode {
                frame_index: i as u32,
                timecode: t,
                timecode_nanos: nanos(i as f64 * fd),
            }
        })
        .collect();
    assert_eq!(find_first_coherent_index(&tcs, fps, false), Some(0));
}

#[test]
fn test_coherent_index_noisy_start() {
    let fps = 25.0;
    let fd = 1.0 / fps;
    let mut tcs = Vec::new();
    // 3 noise frames (out-of-range timecodes)
    tcs.push(FrameTimecode {
        frame_index: 0,
        timecode: Timecode { hours: 45, minutes: 85, seconds: 85, frames: 45 },
        timecode_nanos: nanos(0.0),
    });
    tcs.push(FrameTimecode {
        frame_index: 1,
        timecode: Timecode { hours: 2, minutes: 4, seconds: 14, frames: 2 },
        timecode_nanos: nanos(113.0),
    });
    tcs.push(FrameTimecode {
        frame_index: 2,
        timecode: Timecode { hours: 2, minutes: 4, seconds: 14, frames: 15 },
        timecode_nanos: nanos(113.04),
    });
    // 70 clean frames (2.8 seconds at 25fps)
    let base = Timecode { hours: 2, minutes: 4, seconds: 20, frames: 0 };
    for i in 0..70 {
        let t = (0..i).fold(base, |acc, _| increment_timecode(&acc, fps, false));
        tcs.push(FrameTimecode {
            frame_index: (3 + i) as u32,
            timecode: t,
            timecode_nanos: nanos(200.0 + i as f64 * fd),
        });
    }
    let idx = find_first_coherent_index(&tcs, fps, false);
    assert_eq!(idx, Some(3));
}

#[test]
fn test_coherent_index_isolated_valid_frames() {
    let fps = 25.0;
    let fd = 1.0 / fps;
    let mut tcs = Vec::new();
    for i in 0..10 {
        let tc = Timecode { hours: 0, minutes: 0, seconds: 0, frames: (i * 5) as u32 };
        tcs.push(FrameTimecode {
            frame_index: i as u32,
            timecode: tc,
            timecode_nanos: nanos(i as f64 * fd),
        });
    }
    assert_eq!(find_first_coherent_index(&tcs, fps, false), None);
}

#[test]
fn test_coherent_index_too_few_frames() {
    let fps = 25.0;
    let tcs = vec![
        FrameTimecode {
            frame_index: 0,
            timecode: Timecode { hours: 0, minutes: 0, seconds: 0, frames: 0 },
            timecode_nanos: nanos(0.0),
        },
        FrameTimecode {
            frame_index: 1,
            timecode: Timecode { hours: 0, minutes: 0, seconds: 0, frames: 1 },
            timecode_nanos: nanos(0.04),
        },
    ];
    assert_eq!(find_first_coherent_index(&tcs, fps, false), None);
}

#[test]
fn test_coherent_index_drop_frame() {
    let fps = 29.97;
    let fd = 1.0 / fps;
    let mut tcs = Vec::new();
    let base = Timecode { hours: 0, minutes: 9, seconds: 59, frames: 29 };
    for i in 0..120 {
        let t = (0..i).fold(base, |acc, _| increment_timecode(&acc, fps, true));
        tcs.push(FrameTimecode {
            frame_index: i as u32,
            timecode: t,
            timecode_nanos: nanos(i as f64 * fd),
        });
    }
    // All frames form a valid drop-frame sequence → no adjustment needed
    assert_eq!(find_first_coherent_index(&tcs, fps, true), Some(0));
}

#[test]
fn test_coherent_index_midnight_wrap() {
    let fps = 25.0;
    let fd = 1.0 / fps;
    let mut tcs = Vec::new();
    let base = Timecode { hours: 23, minutes: 59, seconds: 59, frames: 24 };
    for i in 0..150 {
        let t = (0..i).fold(base, |acc, _| increment_timecode(&acc, fps, false));
        tcs.push(FrameTimecode {
            frame_index: i as u32,
            timecode: t,
            timecode_nanos: nanos(i as f64 * fd),
        });
    }
    assert_eq!(find_first_coherent_index(&tcs, fps, false), Some(0));
}

fn mk_tc(hours: u32, minutes: u32, seconds: u32, frames: u32) -> Timecode {
    Timecode { hours, minutes, seconds, frames }
}

// ── End-to-end: generated audio must decode gap-free ─────────────────
//
// Generates real modulated audio across the historically broken
// boundaries (:39:24 → :40:00 and :59:24 → minute rollover, plus an
// hour rollover) and runs the builtin decoder over it, mirroring the
// production analysis pipeline. Any backward jump or gap fails here.

#[test]
fn test_generated_audio_decodes_gap_free_48khz_25fps() {
    let sample_rate = 48000u32;
    let fps = 25.0f64;
    let base = 1920;
    let duration_secs = 63.0f64;
    let num_frames = (duration_secs * fps) as u64;
    let mut tc = mk_tc(9, 59, 39, 0);
    let mut last_level = (1.0f32, 1.0f32);
    let mut accumulator = 0u64;
    let mut expected: Vec<Timecode> = Vec::with_capacity(num_frames as usize);
    let mut audio: Vec<f32> = Vec::with_capacity((duration_secs * sample_rate as f64) as usize);
    let mut frame_buf = vec![0.0f32; (base + 1) * 2];

    for _ in 0..num_frames {
        let (samples, new_acc) = compute_frame_sample_count(48000, 25, base, accumulator);
        let spb = samples as f32 / 80.0;
        frame_buf[..samples * 2].fill(0.0);
        generate_ltc_frame_stereo(
            &tc, false, samples, spb,
            0.8, "both", &mut last_level, &mut frame_buf[..samples * 2],
        );
        audio.extend(frame_buf[..samples * 2].iter().step_by(2).copied());
        expected.push(tc);
        accumulator = new_acc;
        tc = increment_timecode(&tc, fps, false);
    }
    assert_eq!(tc, mk_tc(10, 0, 42, 0), "generation must end at expected TC");

    let result = decode_ltc_samples(&fixed(&audio), sample_rate, 1, rate(fps), false);
    assert!(matches!(result.status, LtcDecodeStatus::Success),
        "status must be Success, got {:?}", result.status);
    assert_eq!(result.sample_rate, sample_rate);
    assert!(result.detected_fps.num == 25 * result.detected_fps.den, "detected fps 25, got {:?}", result.detected_fps);

    let decoded: Vec<Timecode> = result.timecodes.iter().map(|f| f.timecode).collect();
    assert!(!decoded.is_empty(), "at least one frame must decode");
    assert!(expected[..3].contains(&decoded[0]),
        "first decoded frame must be at the start (decoder may skip 1-2 frames before sync lock), got {:?}", decoded[0]);
    assert!(expected[expected.len() - 3..].contains(decoded.last().unwrap()),
        "last decoded frame must be at the end, got {:?}", decoded.last().unwrap());
    assert!(decoded.len() >= expected.len() - 4,
        "decode coverage: {} of {} frames", decoded.len(), expected.len());

    let start_idx = expected.iter().position(|t| *t == decoded[0]).unwrap();
    for (i, frame) in decoded.iter().enumerate() {
        assert_eq!(*frame, expected[start_idx + i],
            "decoded frame {} must be the expected +1 successor (gap or jump at index {})", i, i);
    }

    for boundary in [
        mk_tc(9, 59, 40, 0),
        mk_tc(10, 0, 0, 0),
        mk_tc(10, 0, 40, 0),
    ] {
        assert!(decoded.contains(&boundary), "boundary {:?} must be decoded", boundary);
    }
}

#[test]
fn modulated_bits_are_read_back() {
    let tc = Timecode { hours: 12, minutes: 34, seconds: 56, frames: 18 };
    let bits = get_ltc_bits(&tc, false);
    let (levels, last) = biphase_levels(&bits, 1600, 1);
    assert_eq!(levels.len(), 1600);
    assert!(last == 1 || last == -1);
    let samples: Vec<i64> = levels.iter().map(|l| *l as i64 * FULL_SCALE).collect();
    let spb = 20 * UNIT;
    assert_eq!(ltc_timecode::ltc_signal::extract_bits(&samples, spb, 0, 1), bits.to_vec());
    let zc = ltc_timecode::ltc_signal::find_zero_crossings(&samples, 1);
    assert_eq!(extract_bits_adaptive(&samples, spb, 0, 1, &zc), bits.to_vec());
    // The first bit begins before the first crossing.
    let read = decode_bits_from_zero_crossings(&zc, spb);
    assert!(read.len() >= 78);
    assert!(zc_in_range(&zc, 100, 200).iter().all(|z| (100..200).contains(z)));
}

#[test]
fn sync_words_are_found_with_a_little_damage() {
    assert_eq!(bits_hamming_distance_16(&SYNC_WORD), 0);
    let mut damaged = SYNC_WORD;
    damaged[5] = 0;
    damaged[9] = 0;
    assert_eq!(bits_hamming_distance_16(&damaged), 2);
    damaged[10] = 0;
    assert_eq!(bits_hamming_distance_16(&damaged), 3);
}

#[test]
fn a_file_that_is_no_wav_file_is_an_error() {
    assert!(decode_ltc_from_wav(b"not a wav file", 25.0, false).is_err());
    assert!(quick_check_ltc(b"not a wav file").is_err());
}

#[test]
fn decoded_timecodes_count_up() {
    let result = verify_roundtrip(mk_tc(1, 0, 59, 20), 25.0, false, "both", 0.5, 48000, 1.0);
    for pair in result.timecodes.windows(2) {
        assert_eq!(increment_timecode(&pair[0].timecode, 25.0, false), pair[1].timecode);
        assert!(pair[0].timecode_nanos < pair[1].timecode_nanos);
    }
}

#[test]
fn crossings_at_one_place_are_all_kept() {
    let zc = [10, 20, 20, 20, 30];
    assert_eq!(zc_in_range(&zc, 20, 30), &[20, 20, 20]);
    assert_eq!(zc_in_range(&zc, 0, 20), &[10]);
    assert_eq!(zc_in_range(&zc, 11, 20), &[] as &[usize]);
    assert_eq!(zc_in_range(&zc, 19, 15), &[] as &[usize]);
}

/// A file of floating-point samples in containers of `width` bytes that hold
/// `bits` bits each. Its header counts `frames` frames.
fn float_wav(channels: u16, width: u16, bits: u16, frames: u32, data: &[u8]) -> Vec<u8> {
    let block = channels * width;
    let length = frames * block as u32;
    let mut out: Vec<u8> = Vec::new();
    out.extend_from_slice(b"RIFF");
    out.extend_from_slice(&(60 + length).to_le_bytes());
    out.extend_from_slice(b"WAVEfmt ");
    out.extend_from_slice(&40u32.to_le_bytes());
    out.extend_from_slice(&0xfffeu16.to_le_bytes());
    out.extend_from_slice(&channels.to_le_bytes());
    out.extend_from_slice(&48000u32.to_le_bytes());
    out.extend_from_slice(&(48000 * block as u32).to_le_bytes());
    out.extend_from_slice(&block.to_le_bytes());
    out.extend_from_slice(&(8 * width).to_le_bytes());
    out.extend_from_slice(&22u16.to_le_bytes());
    out.extend_from_slice(&bits.to_le_bytes());
    out.extend_from_slice(&0u32.to_le_bytes());
    out.extend_from_slice(&[3, 0, 0, 0, 0, 0, 16, 0, 128, 0, 0, 0xaa, 0, 0x38, 0x9b, 0x71]);
    out.extend_from_slice(b"data");
    out.extend_from_slice(&length.to_le_bytes());
    out.extend_from_slice(data);
    out
}

fn decode_error(bytes: &[u8]) -> String {
    match decode_ltc_from_wav(bytes, 25.0, false).unwrap().status {
        LtcDecodeStatus::Error { message } => message,
        status => panic!("unexpected {:?}", status),
    }
}

#[test]
fn floating_point_samples_of_another_width_are_not_read() {
    let data: Vec<u8> = (0..2000).map(|i| (i % 251) as u8).collect();
    let none = "Audio file contains no samples";
    assert_ne!(decode_error(&float_wav(1, 4, 32, 1, &data)), none);
    assert_eq!(decode_error(&float_wav(1, 4, 24, 500, &data)), none);
    assert_eq!(decode_error(&float_wav(1, 8, 64, 250, &data)), none);
    assert_eq!(decode_error(&float_wav(1, 8, 32, 250, &data)), none);
    assert_eq!(decode_error(&float_wav(2, 2, 32, 500, &data)), none);
}

#[test]
fn a_floating_point_frame_that_is_cut_off_keeps_its_first_sample() {
    let none = "Audio file contains no samples";
    assert_ne!(decode_error(&float_wav(2, 4, 32, 1, &[0, 0, 0, 63])), none);
    assert_eq!(decode_error(&float_wav(2, 4, 32, 1, &[0, 0, 0])), none);

    // Nine samples cross zero eight times; the ninth has no right channel.
    let mut data: Vec<u8> = Vec::new();
    for i in 0..9 {
        let level: f32 = if i % 2 == 0 { 0.5 } else { -0.5 };
        data.extend_from_slice(&level.to_le_bytes());
        data.extend_from_slice(&level.to_le_bytes());
    }
    let whole = float_wav(2, 4, 32, 9, &data);
    let cut = float_wav(2, 4, 32, 9, &data[..data.len() - 4]);
    assert_eq!(
        decode_ltc_from_wav(&cut, 25.0, false).unwrap().status,
        decode_ltc_from_wav(&whole, 25.0, false).unwrap().status
    );
    let shorter = float_wav(2, 4, 32, 9, &data[..data.len() - 8]);
    assert!(decode_error(&shorter).starts_with("Only 7 zero-crossings"));
}
