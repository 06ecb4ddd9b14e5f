//! What libltc is fed with and the report on what it found.

use ltc_timecode::ltc_decoder::{Detail, LtcDecodeStatus, Share};
use ltc_timecode::ltc_decoder_libltc::{
    finish_libltc, initial_apv, start_libltc, ExternalFrame, LibltcStart,
};
use ltc_timecode::timecode::{increment_timecode, FrameRate, Timecode};

fn wav(channels: u16, bits_per_sample: u16, sample_format: hound::SampleFormat, samples: &[i16]) -> Vec<u8> {
    let spec = hound::WavSpec { channels, sample_rate: 48000, bits_per_sample, sample_format };
    let mut cursor = std::io::Cursor::new(Vec::new());
    let mut writer = hound::WavWriter::new(&mut cursor, spec).unwrap();
    for s in samples {
        if sample_format == hound::SampleFormat::Float {
            writer.write_sample(*s as f32 / 32768.0).unwrap();
        } else {
            writer.write_sample(*s as i32).unwrap();
        }
    }
    writer.finalize().unwrap();
    cursor.into_inner()
}

#[test]
fn first_channel_is_fed() {
    let bytes = wav(2, 16, hound::SampleFormat::Int, &[1, -1, 300, -2, -32768, -3]);
    match start_libltc(&bytes) {
        LibltcStart::Ready(input) => {
            assert_eq!(input.samples, vec![1, 300, -32768]);
            assert_eq!(input.total_samples, 3);
            assert_eq!(input.sample_rate, 48000);
            assert_eq!(input.initial_apv, 1920);
        }
        other => panic!("not ready: {:?}", other),
    }
}

#[test]
fn other_formats_are_refused() {
    let bytes = wav(1, 24, hound::SampleFormat::Int, &[1, 2]);
    match start_libltc(&bytes) {
        LibltcStart::Refused(e) => {
            assert_eq!(e, "libltc decoder requires 16-bit integer PCM WAV (got 24 bit Int)");
        }
        other => panic!("not refused: {:?}", other),
    }
    let bytes = wav(1, 32, hound::SampleFormat::Float, &[1, 2]);
    match start_libltc(&bytes) {
        LibltcStart::Refused(e) => {
            assert_eq!(e, "libltc decoder requires 16-bit integer PCM WAV (got 32 bit Float)");
        }
        other => panic!("not refused: {:?}", other),
    }
    match start_libltc(&[1, 2, 3]) {
        LibltcStart::Refused(e) => assert!(e.starts_with("Failed to open WAV file: ")),
        other => panic!("not refused: {:?}", other),
    }
}

#[test]
fn empty_file_is_an_error_report() {
    match start_libltc(&wav(1, 16, hound::SampleFormat::Int, &[])) {
        LibltcStart::Empty(r) => assert_eq!(
            r.status,
            LtcDecodeStatus::Error { message: "Audio file contains no samples".to_string() }
        ),
        other => panic!("not empty: {:?}", other),
    }
}

#[test]
fn initial_length_is_rounded_up() {
    assert_eq!(initial_apv(48000), 1920);
    assert_eq!(initial_apv(44100), 1764);
    assert_eq!(initial_apv(44101), 1765);
}

#[test]
fn found_frames_are_reported() {
    let fps = FrameRate { num: 25, den: 1 };
    let mut tc = Timecode { hours: 1, minutes: 0, seconds: 0, frames: 0 };
    let mut frames = vec![ExternalFrame {
        timecode: Timecode { hours: 5, minutes: 0, seconds: 0, frames: 0 },
        off_start: 0,
    }];
    for i in 1..100 {
        frames.push(ExternalFrame { timecode: tc, off_start: i * 1920 });
        tc = increment_timecode(&tc, fps, false);
    }
    let r = finish_libltc(&frames, 192_000, 48000, 1920, 3, fps, false);
    assert_eq!(r.status, LtcDecodeStatus::Success);
    assert_eq!(r.valid_frames, 100);
    assert_eq!(r.total_possible_frames, 100);
    assert_eq!(r.avg_confidence, Share { num: 10_000, den: 100 });
    // The stray first frame is trimmed.
    assert_eq!(r.timecodes.len(), 99);
    assert_eq!(r.timecodes[0].frame_index, 0);
    assert_eq!(r.timecodes[0].timecode, Timecode { hours: 1, minutes: 0, seconds: 0, frames: 0 });
    assert_eq!(r.timecodes[0].timecode_nanos, 40_000_000);
    assert_eq!(r.first_ltc_nanos, 40_000_000);
    assert!(matches!(r.details[1], Detail::InitialFrameLength(1920)));
    assert!(matches!(r.details[2], Detail::QueueLength(3)));
    assert!(matches!(r.details[3], Detail::CoherentStart { trimmed: 1, .. }));
}

#[test]
fn nothing_found_is_no_sync_word() {
    let r = finish_libltc(&Vec::new(), 48000, 48000, 1920, 0, FrameRate { num: 25, den: 1 }, true);
    assert_eq!(r.status, LtcDecodeStatus::NoSyncWord);
    assert_eq!(r.total_possible_frames, 25);
    assert_eq!(r.avg_confidence, Share { num: 0, den: 25 });
    assert!(r.drop_frame);
}

#[test]
fn a_frame_may_begin_before_the_first_sample() {
    let tc = Timecode { hours: 1, minutes: 0, seconds: 0, frames: 0 };
    let frames = vec![ExternalFrame { timecode: tc, off_start: -960 }];
    let r = finish_libltc(&frames, 48000, 48000, 1920, 0, FrameRate { num: 25, den: 1 }, false);
    assert_eq!(r.timecodes[0].timecode_nanos, -20_000_000);
    assert_eq!(r.first_ltc_nanos, -20_000_000);
    let frames = vec![ExternalFrame { timecode: tc, off_start: -1 }];
    let r = finish_libltc(&frames, 48000, 48000, 1920, 0, FrameRate { num: 25, den: 1 }, false);
    assert_eq!(r.first_ltc_nanos, -20_834);
}

#[test]
fn without_a_sample_rate_any_number_of_frames_has_room() {
    let r = finish_libltc(&Vec::new(), 48000, 0, 0, 0, FrameRate { num: 25, den: 1 }, false);
    assert_eq!(r.status, LtcDecodeStatus::NoSyncWord);
    assert_eq!(r.total_possible_frames, u32::MAX);
}
