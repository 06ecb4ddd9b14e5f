//! Encoding timecode.

use ltc_timecode::ltc_encoder::{
    biphase_levels, compute_frame_sample_count, get_ltc_bits, routed_channels, write_val,
};
use ltc_timecode::ltc_frames::{bits_to_u8, decode_timecode_from_bits};
use ltc_timecode::timecode::{FrameRate, Timecode};

/// A rate given with up to three decimals.
fn rate(fps: f64) -> FrameRate {
    FrameRate { num: (fps * 1000.0).round() as u32, den: 1000 }
}

fn increment_timecode(tc: &Timecode, fps: f64, drop_frame: bool) -> Timecode {
    ltc_timecode::timecode::increment_timecode(tc, rate(fps), drop_frame)
}

// ── write_val ─────────────────────────────────────────────────────────

#[test]
fn test_write_val_sets_bits() {
    let mut bits = [0u8; 80];
    write_val(&mut bits, 0b1010, 0, 4);
    assert_eq!(bits[0], 0);
    assert_eq!(bits[1], 1);
    assert_eq!(bits[2], 0);
    assert_eq!(bits[3], 1);
}

#[test]
fn test_write_val_offset() {
    let mut bits = [0u8; 80];
    write_val(&mut bits, 0b111, 10, 3);
    assert_eq!(bits[10], 1);
    assert_eq!(bits[11], 1);
    assert_eq!(bits[12], 1);
    assert_eq!(bits[13], 0);
}

#[test]
fn test_write_val_zero_value() {
    let mut bits = [1u8; 80];
    write_val(&mut bits, 0, 5, 4);
    assert_eq!(bits[5], 0);
    assert_eq!(bits[6], 0);
    assert_eq!(bits[7], 0);
    assert_eq!(bits[8], 0);
    assert_eq!(bits[9], 1); // untouched
}

#[test]
fn test_write_val_bounds_last_bit() {
    let mut bits = [0u8; 80];
    write_val(&mut bits, 1, 79, 1);
    assert_eq!(bits[79], 1);
}

// ── get_ltc_bits: sync word ───────────────────────────────────────────

const SYNC_WORD: [u8; 16] = [0, 0, 1, 1, 1, 1, 1, 1, 1, 1, 1, 1, 1, 1, 0, 1];

#[test]
fn test_get_ltc_bits_sync_word_invariant() {
    for tc in [
        Timecode { hours: 0, minutes: 0, seconds: 0, frames: 0 },
        Timecode { hours: 23, minutes: 59, seconds: 59, frames: 29 },
        Timecode { hours: 12, minutes: 34, seconds: 56, frames: 18 },
        Timecode { hours: 10, minutes: 0, seconds: 0, frames: 0 },
    ] {
        let bits = get_ltc_bits(&tc, false);
        let sync = &bits[64..80];
        assert_eq!(sync, SYNC_WORD, "sync word invariant for {:?}", tc);
    }
}

#[test]
fn test_get_ltc_bits_length() {
    let tc = Timecode { hours: 0, minutes: 0, seconds: 0, frames: 0 };
    let bits = get_ltc_bits(&tc, false);
    assert_eq!(bits.len(), 80);
}

// ── get_ltc_bits: timecode field encoding ─────────────────────────────

#[test]
fn test_get_ltc_bits_frames_units() {
    // frames=13: units=3 (0b0011), tens=1 (0b01)
    let tc = Timecode { hours: 0, minutes: 0, seconds: 0, frames: 13 };
    let bits = get_ltc_bits(&tc, false);
    // units in bits 0-3: 3 = 0b0011 → LSB first → bits[0]=1, [1]=1, [2]=0, [3]=0
    assert_eq!(bits[0], 1);
    assert_eq!(bits[1], 1);
    assert_eq!(bits[2], 0);
    assert_eq!(bits[3], 0);
    // tens in bits 8-9: 1 = 0b01 → bits[8]=1, [9]=0
    assert_eq!(bits[8], 1);
    assert_eq!(bits[9], 0);
}

#[test]
fn test_get_ltc_bits_frames_units_zero() {
    let tc = Timecode { hours: 0, minutes: 0, seconds: 0, frames: 0 };
    let bits = get_ltc_bits(&tc, false);
    assert_eq!(bits[0..4], [0, 0, 0, 0]);
    assert_eq!(bits[8..10], [0, 0]);
}

#[test]
fn test_get_ltc_bits_frames_max() {
    let tc = Timecode { hours: 0, minutes: 0, seconds: 0, frames: 29 };
    let bits = get_ltc_bits(&tc, false);
    assert_eq!(bits[0..4], [1, 0, 0, 1]); // 9
    assert_eq!(bits[8..10], [0, 1]);       // 2
}

#[test]
fn test_get_ltc_bits_seconds() {
    let tc = Timecode { hours: 0, minutes: 0, seconds: 37, frames: 0 };
    let bits = get_ltc_bits(&tc, false);
    // units=7 (0b0111) → bits[16..20] = 1,1,1,0
    assert_eq!(bits[16..20], [1, 1, 1, 0]);
    // tens=3 (0b011) → bits[24..27] = 1,1,0
    assert_eq!(bits[24..27], [1, 1, 0]);
}

#[test]
fn test_get_ltc_bits_minutes() {
    let tc = Timecode { hours: 0, minutes: 45, seconds: 0, frames: 0 };
    let bits = get_ltc_bits(&tc, false);
    // units=5 (0b0101) → bits[32..36] = 1,0,1,0
    assert_eq!(bits[32..36], [1, 0, 1, 0]);
    // tens=4 (0b100) → bits[40..43] = 0,0,1
    assert_eq!(bits[40..43], [0, 0, 1]);
}

#[test]
fn test_get_ltc_bits_hours() {
    let tc = Timecode { hours: 21, minutes: 0, seconds: 0, frames: 0 };
    let bits = get_ltc_bits(&tc, false);
    // units=1 (0b0001) → bits[48..52] = 1,0,0,0
    assert_eq!(bits[48..52], [1, 0, 0, 0]);
    // tens=2 (0b10) → bits[56..58] = 0,1
    assert_eq!(bits[56..58], [0, 1]);
}

#[test]
fn ltc_encoder_test_get_ltc_bits_drop_frame_flag() {
    let tc = Timecode { hours: 0, minutes: 0, seconds: 0, frames: 0 };
    let bits_nd = get_ltc_bits(&tc, false);
    let bits_df = get_ltc_bits(&tc, true);
    assert_eq!(bits_nd[10], 0, "non-drop: bit 10 = 0");
    assert_eq!(bits_df[10], 1, "drop-frame: bit 10 = 1");
}

#[test]
fn test_get_ltc_bits_color_frame_flag() {
    let tc = Timecode { hours: 0, minutes: 0, seconds: 0, frames: 0 };
    let bits = get_ltc_bits(&tc, false);
    assert_eq!(bits[11], 0, "color frame flag must be 0");
}

#[test]
fn test_get_ltc_bits_binary_groups_zero() {
    let tc = Timecode { hours: 0, minutes: 0, seconds: 0, frames: 0 };
    let bits = get_ltc_bits(&tc, false);
    // Binary group zones (user bits) should all be 0
    assert_eq!(bits[4..8], [0, 0, 0, 0], "binary group 1");
    assert_eq!(bits[12..16], [0, 0, 0, 0], "binary group 2");
    assert_eq!(bits[20..24], [0, 0, 0, 0], "binary group 3");
    assert_eq!(bits[27..32], [0, 0, 0, 0, 0], "binary group 4");
    assert_eq!(bits[36..40], [0, 0, 0, 0], "binary group 5");
    assert_eq!(bits[44..48], [0, 0, 0, 0], "binary group 6");
    assert_eq!(bits[52..56], [0, 0, 0, 0], "binary group 7");
    assert_eq!(bits[60..64], [0, 0, 0, 0], "binary group 8");
}

#[test]
fn test_roundtrip_zero() {
    let tc = Timecode { hours: 0, minutes: 0, seconds: 0, frames: 0 };
    let bits = get_ltc_bits(&tc, false);
    assert_eq!(decode_timecode_from_bits(&bits, 0), tc);
}

#[test]
fn test_roundtrip_typical() {
    let tc = Timecode { hours: 1, minutes: 2, seconds: 3, frames: 4 };
    let bits = get_ltc_bits(&tc, false);
    assert_eq!(decode_timecode_from_bits(&bits, 0), tc);
}

#[test]
fn test_roundtrip_max() {
    let tc = Timecode { hours: 23, minutes: 59, seconds: 59, frames: 29 };
    let bits = get_ltc_bits(&tc, false);
    assert_eq!(decode_timecode_from_bits(&bits, 0), tc);
}

#[test]
fn test_roundtrip_drop_frame() {
    let tc = Timecode { hours: 10, minutes: 15, seconds: 30, frames: 12 };
    let bits = get_ltc_bits(&tc, true);
    assert_eq!(decode_timecode_from_bits(&bits, 0), tc);
    assert_eq!(bits[10], 1, "drop-frame flag must be set");
}

#[test]
fn test_roundtrip_multiple_frames() {
    let tc0 = Timecode { hours: 0, minutes: 0, seconds: 0, frames: 0 };
    let tc1 = Timecode { hours: 1, minutes: 2, seconds: 3, frames: 4 };
    let bits0 = get_ltc_bits(&tc0, false);
    let bits1 = get_ltc_bits(&tc1, false);
    let mut both = [0u8; 160];
    both[..80].copy_from_slice(&bits0);
    both[80..].copy_from_slice(&bits1);
    assert_eq!(decode_timecode_from_bits(&both, 0), tc0);
    assert_eq!(decode_timecode_from_bits(&both, 80), tc1);
}

// ── increment_timecode ────────────────────────────────────────────────

#[test]
fn test_increment_basic() {
    let tc = Timecode { hours: 0, minutes: 0, seconds: 0, frames: 0 };
    assert_eq!(
        increment_timecode(&tc, 25.0, false),
        Timecode { hours: 0, minutes: 0, seconds: 0, frames: 1 }
    );
}

#[test]
fn test_increment_25fps_rollover() {
    let tc = Timecode { hours: 0, minutes: 0, seconds: 0, frames: 24 };
    assert_eq!(
        increment_timecode(&tc, 25.0, false),
        Timecode { hours: 0, minutes: 0, seconds: 1, frames: 0 }
    );
}

#[test]
fn test_increment_30fps_rollover() {
    let tc = Timecode { hours: 0, minutes: 0, seconds: 0, frames: 29 };
    assert_eq!(
        increment_timecode(&tc, 30.0, false),
        Timecode { hours: 0, minutes: 0, seconds: 1, frames: 0 }
    );
}

#[test]
fn test_increment_24fps_rollover() {
    let tc = Timecode { hours: 0, minutes: 0, seconds: 0, frames: 23 };
    assert_eq!(
        increment_timecode(&tc, 24.0, false),
        Timecode { hours: 0, minutes: 0, seconds: 1, frames: 0 }
    );
}

#[test]
fn test_increment_2997_non_drop_rollover() {
    let tc = Timecode { hours: 0, minutes: 0, seconds: 0, frames: 29 };
    assert_eq!(
        increment_timecode(&tc, 29.97, false),
        Timecode { hours: 0, minutes: 0, seconds: 1, frames: 0 }
    );
}

#[test]
fn test_increment_second_rollover() {
    let tc = Timecode { hours: 0, minutes: 0, seconds: 59, frames: 24 };
    assert_eq!(
        increment_timecode(&tc, 25.0, false),
        Timecode { hours: 0, minutes: 1, seconds: 0, frames: 0 }
    );
}

#[test]
fn test_increment_minute_rollover() {
    let tc = Timecode { hours: 0, minutes: 59, seconds: 59, frames: 24 };
    assert_eq!(
        increment_timecode(&tc, 25.0, false),
        Timecode { hours: 1, minutes: 0, seconds: 0, frames: 0 }
    );
}

#[test]
fn test_increment_hour_rollover() {
    let tc = Timecode { hours: 23, minutes: 59, seconds: 59, frames: 24 };
    assert_eq!(
        increment_timecode(&tc, 25.0, false),
        Timecode { hours: 0, minutes: 0, seconds: 0, frames: 0 }
    );
}

#[test]
fn test_increment_23976_rollover() {
    let tc = Timecode { hours: 0, minutes: 0, seconds: 0, frames: 23 };
    assert_eq!(
        increment_timecode(&tc, 23.976, false),
        Timecode { hours: 0, minutes: 0, seconds: 1, frames: 0 }
    );
}

// ── increment_timecode: drop frame ────────────────────────────────────

#[test]
fn test_increment_drop_frame_skip_frames_0_1() {
    // 01:00:59:29 at 29.97df → should skip frames 0,1 → 01:01:00:02
    let tc = Timecode { hours: 1, minutes: 0, seconds: 59, frames: 29 };
    assert_eq!(
        increment_timecode(&tc, 29.97, true),
        Timecode { hours: 1, minutes: 1, seconds: 0, frames: 2 }
    );
}

#[test]
fn test_increment_drop_frame_no_skip_on_div10() {
    // 01:09:59:29 at 29.97df → minute=9 (divisible by 10? No, 9%10!=0... wait)
    // Actually 9%10 != 0 so it SHOULD skip. Let's use minute=10 which IS divisible by 10.
    // 01:09:59:29, m%10 = 9 → skip BUT we just advanced m to 10, and m%10=0 → no skip
    // Wait, the check happens AFTER m is incremented. So if m becomes 10, m%10==0 → no skip.
    // So: 01:09:59:29 → s rolls to 60 → m becomes 10 → m%10==0 → no skip
    let tc = Timecode { hours: 1, minutes: 9, seconds: 59, frames: 29 };
    assert_eq!(
        increment_timecode(&tc, 29.97, true),
        Timecode { hours: 1, minutes: 10, seconds: 0, frames: 0 }
    );
}

#[test]
fn test_increment_drop_frame_no_skip_first_minute_of_hour() {
    // 00:59:59:29 at 29.97df → frames roll to 30 → f=0, s rolls to 60 → s=0,
    // m rolls to 60 → m=0, h becomes 1.  Then drop check: m%10=0 → no skip.
    // Result: 01:00:00:00 (no drop because minute 0 never drops).
    let tc = Timecode { hours: 0, minutes: 59, seconds: 59, frames: 29 };
    let next = increment_timecode(&tc, 29.97, true);
    assert_eq!(next.hours, 1);
    assert_eq!(next.minutes, 0);
    assert_eq!(next.seconds, 0);
    assert_eq!(next.frames, 0);
}

#[test]
fn test_increment_drop_frame_no_skip_minute_0() {
    // 00:00:59:29 at 29.97df → m becomes 1, 1%10=1, so it DOES skip
    // But what about 01:00:00:29? Let's test: m stays 0, frame just rolls normally
    // Actually let's test the case where the frame stays at the boundary:
    // 00:00:00:29 at 29.97df → frames=30, which >= 30 → f=0, s=1, no minute change → no drop check
    let tc = Timecode { hours: 0, minutes: 0, seconds: 0, frames: 29 };
    let next = increment_timecode(&tc, 29.97, true);
    assert_eq!(next, Timecode { hours: 0, minutes: 0, seconds: 1, frames: 0 });
}

#[test]
fn test_increment_drop_frame_sequential() {
    let mut tc = Timecode { hours: 1, minutes: 1, seconds: 0, frames: 0 };
    tc = increment_timecode(&tc, 29.97, true);
    assert_eq!(tc, Timecode { hours: 1, minutes: 1, seconds: 0, frames: 1 });
    tc = increment_timecode(&tc, 29.97, true);
    assert_eq!(tc, Timecode { hours: 1, minutes: 1, seconds: 0, frames: 2 });
}

#[test]
fn test_increment_drop_frame_at_23976() {
    // 23.976 drop-frame is uncommon but shouldn't crash/misbehave
    let tc = Timecode { hours: 1, minutes: 0, seconds: 59, frames: 23 };
    let next = increment_timecode(&tc, 23.976, true);
    assert_eq!(next.minutes, 1);
    assert_eq!(next.seconds, 0);
    assert_eq!(next.hours, 1);
}

// ── increment_timecode: long-running (2h simulation) ──────────────────

#[test]
fn test_increment_2h_25fps_no_drift() {
    let fps = 25.0;
    let num_frames = (7200.0_f64 * fps) as u64; // 180,000
    let mut tc = Timecode { hours: 10, minutes: 0, seconds: 0, frames: 0 };
    for _ in 0..num_frames {
        tc = increment_timecode(&tc, fps, false);
    }
    assert_eq!(tc.hours, 12, "hours after 2h at 25fps");
    assert_eq!(tc.minutes, 0);
    assert_eq!(tc.seconds, 0);
    assert_eq!(tc.frames, 0);
}

#[test]
fn test_increment_2h_2997_df_no_drift() {
    let fps = 29.97;
    let num_frames = (7200.0_f64 * fps).round() as u64; // 215,784
    let mut tc = Timecode { hours: 10, minutes: 0, seconds: 0, frames: 0 };
    for _ in 0..num_frames {
        tc = increment_timecode(&tc, fps, true);
    }
    // After exactly 2 real-time hours of drop-frame, hours should advance by 2
    assert_eq!(tc.hours, 12, "hours after 2h at 29.97df");
    // The exact frame position depends on drop-frame accumulation
    // but hours must be correct
}

#[test]
fn test_increment_2h_30fps_no_drift() {
    let fps = 30.0;
    let num_frames = (7200.0_f64 * fps) as u64; // 216,000
    let mut tc = Timecode { hours: 10, minutes: 0, seconds: 0, frames: 0 };
    for _ in 0..num_frames {
        tc = increment_timecode(&tc, fps, false);
    }
    assert_eq!(tc.hours, 12);
    assert_eq!(tc.minutes, 0);
    assert_eq!(tc.seconds, 0);
    assert_eq!(tc.frames, 0);
}

#[test]
fn test_increment_24h_wrap_exact() {
    let fps = 25.0;
    let num_frames = (24.0 * 3600.0 * fps) as u64; // exactly 24h
    let mut tc = Timecode { hours: 0, minutes: 0, seconds: 0, frames: 0 };
    for _ in 0..num_frames {
        tc = increment_timecode(&tc, fps, false);
    }
    assert_eq!(tc.hours, 0);
    assert_eq!(tc.minutes, 0);
    assert_eq!(tc.seconds, 0);
    assert_eq!(tc.frames, 0);
}

#[test]
fn test_long_running_2h_sample_count_zero_drift_48khz() {
    let sample_rate = 48000u64;
    // Samples in a frame: 48000 / (2997/100).
    let (exact_num, exact_den) = (sample_rate * 100, 2997u64);
    let base = (exact_num / exact_den) as usize;
    let mut total_generated: u64 = 0;
    let mut accumulator = 0u64;
    let num_frames = 215784u64;
    for _ in 0..num_frames {
        let (samples, new_acc) = compute_frame_sample_count(exact_num, exact_den, base, accumulator);
        total_generated += samples as u64;
        accumulator = new_acc;
    }
    let expected = sample_rate * 7200;
    let drift = total_generated as i64 - expected as i64;
    assert!(
        drift.unsigned_abs() <= 2,
        "Zero drift target at 48kHz: got {} samples drift over 2h (allowed ±2)",
        drift
    );
}

#[test]
fn test_long_running_2h_sample_count_zero_drift_44khz() {
    let sample_rate = 44100u64;
    // Samples in a frame: 44100 / (2997/100).
    let (exact_num, exact_den) = (sample_rate * 100, 2997u64);
    let base = (exact_num / exact_den) as usize;
    let mut total_generated: u64 = 0;
    let mut accumulator = 0u64;
    let num_frames = 215784u64;
    for _ in 0..num_frames {
        let (samples, new_acc) = compute_frame_sample_count(exact_num, exact_den, base, accumulator);
        total_generated += samples as u64;
        accumulator = new_acc;
    }
    let expected = sample_rate * 7200;
    let drift = total_generated as i64 - expected as i64;
    assert!(
        drift.unsigned_abs() <= 2,
        "Zero drift target at 44.1kHz: got {} samples drift over 2h (allowed ±2)",
        drift
    );
}

// ── Bits -> u8 helper for round-trip ──────────────────────────────────

#[test]
fn ltc_encoder_test_bits_to_u8_zero() {
    assert_eq!(bits_to_u8(&[0, 0, 0, 0]), 0);
}

#[test]
fn test_bits_to_u8_single() {
    assert_eq!(bits_to_u8(&[1, 0, 0, 0]), 1);
}

#[test]
fn test_bits_to_u8_multiple() {
    assert_eq!(bits_to_u8(&[1, 0, 1, 0]), 5);
    assert_eq!(bits_to_u8(&[0, 1, 0, 1]), 0b1010);
}

#[test]
fn ltc_encoder_test_bits_to_u8_max() {
    assert_eq!(bits_to_u8(&[1, 1, 1, 1]), 15);
}

#[test]
fn ltc_encoder_test_bits_to_u8_truncated() {
    assert_eq!(bits_to_u8(&[1, 0]), 1);
    assert_eq!(bits_to_u8(&[1, 1, 0, 0, 0, 0, 0, 0]), 3);
}

// ── Helpers: exhaustive sweeps / continuity ───────────────────────────

fn bits_to_hex(bits: &[u8; 80]) -> String {
    let mut bytes = [0u8; 10];
    for (i, &b) in bits.iter().enumerate() {
        bytes[i / 8] |= b << (i % 8);
    }
    bytes.iter().map(|b| format!("{:02x}", b)).collect()
}

#[test]
fn test_golden_vectors() {
    let cases: [(u32, u32, u32, u32, bool, &str); 11] = [
        (0, 0, 0, 0, false, "0000000000000000fcbf"),
        (1, 2, 3, 4, false, "0400030002000100fcbf"),
        (2, 1, 39, 24, false, "0402090301000200fcbf"),
        (2, 1, 40, 0, false, "0000000401000200fcbf"),
        (2, 1, 50, 24, false, "0402000501000200fcbf"),
        (2, 1, 59, 24, false, "0402090501000200fcbf"),
        (9, 59, 40, 0, false, "0000000409050900fcbf"),
        (12, 34, 56, 18, false, "0801060504030201fcbf"),
        (23, 59, 59, 29, false, "0902090509050302fcbf"),
        (0, 0, 0, 0, true, "0004000000000000fcbf"),
        (10, 15, 30, 12, true, "0205000305010001fcbf"),
    ];
    for (h, m, s, f, df, expected_hex) in cases {
        let hex = bits_to_hex(&get_ltc_bits(&mk_tc(h, m, s, f), df));
        assert_eq!(
            hex, expected_hex,
            "golden vector for {:02}:{:02}:{:02}:{:02} df={}",
            h, m, s, f, df
        );
    }
}

fn mk_tc(hours: u32, minutes: u32, seconds: u32, frames: u32) -> Timecode {
    Timecode { hours, minutes, seconds, frames }
}

/// Absolute frame number in the integer frame-number space used by
/// `increment_timecode` (`fps.ceil()` frames per displayed second).
fn tc_frame_number(tc: &Timecode, fps: f64) -> u64 {
    let mpf = fps.ceil() as u64;
    (tc.hours as u64 * 3600 + tc.minutes as u64 * 60 + tc.seconds as u64) * mpf
        + tc.frames as u64
}

fn roundtrip(t: &Timecode, drop_frame: bool) -> Timecode {
    let bits = get_ltc_bits(t, drop_frame);
    decode_timecode_from_bits(&bits, 0)
}

// ── Regression: seconds tens must use all 3 bits (24–26) ─────────────
//
// Historical bug (a7ac813 → 2f68dd8): the seconds-tens BCD digit (0–5)
// was written into 2 bits, so tens=4 (0b100) truncated to 0 and tens=5
// (0b101) truncated to 1. Every minute decoded as: 00–39 correct,
// 40–59 shown as 00–19 → periodic backward/forward jumps exactly at
// :39:24 → :00:00 and :19:24 → next minute.

#[test]
fn test_seconds_tens_uses_3_bits() {
    for s in 40u32..=59 {
        let t = mk_tc(2, 1, s, 12);
        let bits = get_ltc_bits(&t, false);
        let expected: [u8; 3] = if s < 50 { [0, 0, 1] } else { [1, 0, 1] };
        assert_eq!(bits[24..27], expected, "seconds-tens bits for s={}", s);
        assert_eq!(roundtrip(&t, false), t, "round-trip for s={}", s);
    }
}

// ── Exhaustive round-trip sweeps ──────────────────────────────────────

#[test]
fn test_roundtrip_exhaustive_25fps() {
    for h in 0u32..=23 {
        for m in 0u32..=59 {
            for s in 0u32..=59 {
                for f in 0u32..=24 {
                    let t = mk_tc(h, m, s, f);
                    assert_eq!(roundtrip(&t, false), t, "tc={:?}", t);
                }
            }
        }
    }
}

#[test]
fn test_roundtrip_sweep_other_fps() {
    for &fps in &[24.0f64, 29.97, 30.0] {
        let mf = fps.ceil() as u32;
        for &h in &[0u32, 1, 9, 10, 23] {
            for m in 0u32..=59 {
                for s in 0u32..=59 {
                    for f in 0..mf {
                        let t = mk_tc(h, m, s, f);
                        assert_eq!(roundtrip(&t, false), t, "fps={} tc={:?}", fps, t);
                    }
                }
            }
        }
    }
}

#[test]
fn test_bcd_field_positions_and_widths() {
    for v in 0u32..=9 {
        let t = mk_tc(0, 0, 0, v);
        assert_eq!(bits_to_u8(&get_ltc_bits(&t, false)[0..4]), v as u8, "frame units {}", v);
    }
    for v in 0u32..=2 {
        let t = mk_tc(0, 0, 0, v * 10 + 3);
        let bits = get_ltc_bits(&t, false);
        assert_eq!(bits_to_u8(&bits[8..10]), v as u8, "frame tens {}", v);
        assert_eq!(bits_to_u8(&bits[0..4]), 3);
    }
    for v in 0u32..=9 {
        let t = mk_tc(0, 0, v, 3);
        let bits = get_ltc_bits(&t, false);
        assert_eq!(bits_to_u8(&bits[16..20]), v as u8, "seconds units {}", v);
    }
    for v in 0u32..=5 {
        let t = mk_tc(0, 0, v * 10 + 3, 0);
        let bits = get_ltc_bits(&t, false);
        assert_eq!(bits_to_u8(&bits[24..27]), v as u8, "seconds tens {}", v);
        assert_eq!(bits_to_u8(&bits[16..20]), 3);
    }
    for v in 0u32..=9 {
        let t = mk_tc(0, v, 3, 0);
        let bits = get_ltc_bits(&t, false);
        assert_eq!(bits_to_u8(&bits[32..36]), v as u8, "minutes units {}", v);
    }
    for v in 0u32..=5 {
        let t = mk_tc(0, v * 10 + 3, 3, 0);
        let bits = get_ltc_bits(&t, false);
        assert_eq!(bits_to_u8(&bits[40..43]), v as u8, "minutes tens {}", v);
        assert_eq!(bits_to_u8(&bits[32..36]), 3);
    }
    for v in 0u32..=9 {
        let t = mk_tc(v, 3, 3, 0);
        let bits = get_ltc_bits(&t, false);
        assert_eq!(bits_to_u8(&bits[48..52]), v as u8, "hours units {}", v);
    }
    for v in 0u32..=2 {
        let t = mk_tc(v * 10 + 1, 3, 3, 0);
        let bits = get_ltc_bits(&t, false);
        assert_eq!(bits_to_u8(&bits[56..58]), v as u8, "hours tens {}", v);
        assert_eq!(bits_to_u8(&bits[48..52]), 1);
    }
}

// ── Continuity: encode→decode sequence must advance by exactly 1 ─────
//
// Catches the observed production failure: every decoded frame must be
// the strict +1 successor of the previous one. The historical 2-bit
// seconds-tens bug produces 1000 "missing" frames per minute and fails
// at the first :39:24 → :40:00 boundary.

#[test]
fn test_encoded_sequence_continuous_2h_25fps() {
    let fps = 25.0f64;
    let num_frames = (7200.0 * fps) as u64;
    let mut t = mk_tc(10, 0, 0, 0);
    let mut prev = tc_frame_number(&t, fps);
    for i in 0..num_frames {
        t = increment_timecode(&t, fps, false);
        let decoded = roundtrip(&t, false);
        assert_eq!(decoded, t, "frame {} must round-trip", i);
        let n = tc_frame_number(&decoded, fps);
        assert_eq!(n, prev + 1, "frame {} must advance exactly +1 ({} -> {})", i, prev, n);
        prev = n;
    }
    assert_eq!(t, mk_tc(12, 0, 0, 0));
}

#[test]
fn test_encoded_sequence_continuous_2h_various_fps() {
    for &fps in &[24.0f64, 29.97, 30.0] {
        let num_frames = 7200 * fps.ceil() as u64;
        let mut t = mk_tc(10, 0, 0, 0);
        let mut prev = tc_frame_number(&t, fps);
        for i in 0..num_frames {
            t = increment_timecode(&t, fps, false);
            let decoded = roundtrip(&t, false);
            assert_eq!(decoded, t, "fps={} frame {} must round-trip", fps, i);
            let n = tc_frame_number(&decoded, fps);
            assert_eq!(n, prev + 1, "fps={} frame {} must advance exactly +1", fps, i);
            prev = n;
        }
        assert_eq!(t, mk_tc(12, 0, 0, 0), "fps={} must land on +2h", fps);
    }
}

#[test]
fn test_encoded_sequence_continuous_2h_2997_drop_frame() {
    let fps = 29.97f64;
    let num_frames = (7200.0 * fps).round() as u64;
    assert_eq!(num_frames, 215_784, "2h of 29.97df frame numbers");
    let mut t = mk_tc(10, 0, 0, 0);
    let mut skipped = 0u64;
    for i in 0..num_frames {
        let decoded = roundtrip(&t, true);
        assert_eq!(decoded, t, "df frame {} must round-trip", i);
        let prev_frames = t.frames;
        t = increment_timecode(&t, fps, true);
        if t.frames == 2 && prev_frames == 29 {
            skipped += 1;
            assert_ne!(t.minutes % 10, 0, "frames may only be dropped in non-tenth minutes");
        }
    }
    assert_eq!(skipped, 108, "54 drop events per hour (2 frames each) = 108 over 2h");
    assert_eq!(t, mk_tc(12, 0, 0, 0), "frame accounting must land exactly on +2h");
}

#[test]
fn test_midnight_wrap_continuity_25fps() {
    let fps = 25.0f64;
    let day_frames = 24u64 * 3600 * fps as u64;
    let mut t = mk_tc(23, 59, 59, 20);
    let start_num = tc_frame_number(&t, fps);
    for i in 0..20u64 {
        t = increment_timecode(&t, fps, false);
        let decoded = roundtrip(&t, false);
        assert_eq!(decoded, t, "wrap step {} must round-trip", i);
        let n = tc_frame_number(&decoded, fps);
        assert_eq!(n, (start_num + i + 1) % day_frames, "wrap step {}", i);
    }
    assert_eq!(t, mk_tc(0, 0, 0, 15));
}

#[test]
fn test_full_24h_roundtrip_and_continuity_25fps() {
    let fps = 25.0f64;
    let day_frames = 24u64 * 3600 * fps as u64;
    let mut t = mk_tc(0, 0, 0, 0);
    let mut prev: u64 = day_frames - 1;
    for i in 0..day_frames {
        let decoded = roundtrip(&t, false);
        assert_eq!(decoded, t, "frame {} must round-trip", i);
        let n = tc_frame_number(&decoded, fps);
        assert_eq!(n, (prev + 1) % day_frames, "frame {} must advance exactly +1", i);
        prev = n;
        t = increment_timecode(&t, fps, false);
    }
    assert_eq!(t, mk_tc(0, 0, 0, 0), "24h must wrap back to zero");
}

#[test]
fn test_long_running_2h_sample_count_zero_drift_48khz_25fps() {
    let sample_rate = 48000u64;
    // Samples in a frame: 48000 / (25/1).
    let (exact_num, exact_den) = (sample_rate * 1, 25u64);
    let base = (exact_num / exact_den) as usize;
    let mut total_generated: u64 = 0;
    let mut accumulator = 0u64;
    let num_frames = 180000u64;
    for _ in 0..num_frames {
        let (samples, new_acc) = compute_frame_sample_count(exact_num, exact_den, base, accumulator);
        total_generated += samples as u64;
        accumulator = new_acc;
    }
    let expected = sample_rate * 7200;
    let drift = total_generated as i64 - expected as i64;
    assert!(
        drift.unsigned_abs() <= 2,
        "zero drift target at 48kHz/25fps: got {} samples drift over 2h (allowed ±2)",
        drift
    );
}

#[test]
fn test_long_running_2h_sample_count_zero_drift_44khz_25fps() {
    let sample_rate = 44100u64;
    // Samples in a frame: 44100 / (25/1).
    let (exact_num, exact_den) = (sample_rate * 1, 25u64);
    let base = (exact_num / exact_den) as usize;
    let mut total_generated: u64 = 0;
    let mut accumulator = 0u64;
    let num_frames = 180000u64;
    for _ in 0..num_frames {
        let (samples, new_acc) = compute_frame_sample_count(exact_num, exact_den, base, accumulator);
        total_generated += samples as u64;
        accumulator = new_acc;
    }
    let expected = sample_rate * 7200;
    let drift = total_generated as i64 - expected as i64;
    assert!(
        drift.unsigned_abs() <= 2,
        "zero drift target at 44.1kHz/25fps: got {} samples drift over 2h (allowed ±2)",
        drift
    );
}

// ── Bi-phase mark encoding ────────────────────────────────────────────

#[test]
fn test_frame_biphase_mark_bit_transition() {
    // For a bit value of 0: there should be a level transition at the start of the bit
    // (always), but no transition at the midpoint.
    // For a bit value of 1: there should be transitions at both start and midpoint.
    let total_samples = 640;
    let tc = Timecode { hours: 0, minutes: 0, seconds: 0, frames: 0 }; // frame units = 0
    let bits = get_ltc_bits(&tc, false);
    assert_eq!(bits[0], 0, "frame units bit 0 should be 0");
    assert_eq!(bits[64], 0, "sync word bit 64 should be 0");
    assert_eq!(bits[66], 1, "sync word bit 66 should be 1");

    let (levels, _) = biphase_levels(&bits, total_samples, 1);
    let mut before = 1;
    for (b, bit) in bits.iter().enumerate() {
        let samples = &levels[b * 8..(b + 1) * 8];
        assert_eq!(samples[0], -before, "bit {} should begin with a transition", b);
        assert_eq!(samples[7] != samples[0], *bit == 1, "midpoint of bit {}", b);
        before = samples[7];
    }
}

#[test]
fn channels_are_routed_by_name() {
    assert_eq!(routed_channels("both"), (true, true));
    assert_eq!(routed_channels("left"), (true, false));
    assert_eq!(routed_channels("right"), (false, true));
    assert_eq!(routed_channels("none"), (false, false));
}
