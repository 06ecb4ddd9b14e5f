//! Reading and decoding recordings in chunks.

use ltc_timecode::ltc_chunks::{
    count_chunks, fits_one_chunk, plan_chunks, DecodeProgress, WavChunkReader as Layout,
};
use ltc_timecode::ltc_decoder::{Detail, FrameTimecode, LtcDecodeStatus, LtcDetectionResult};
use ltc_timecode::ltc_encoder::{get_ltc_bits, routed_channels};
use ltc_timecode::ltc_signal::FULL_SCALE;
use ltc_timecode::timecode::{FrameRate, Timecode};

/// A rate given with up to three decimals.
fn rate(fps: f64) -> FrameRate {
    FrameRate { num: (fps * 1000.0).round() as u32, den: 1000 }
}

fn increment_timecode(tc: &Timecode, fps: f64, drop_frame: bool) -> Timecode {
    ltc_timecode::timecode::increment_timecode(tc, rate(fps), drop_frame)
}

fn decode_ltc_from_wav(bytes: &[u8], fps: f64, drop_frame: bool) -> Result<LtcDetectionResult, String> {
    ltc_timecode::ltc_decoder::decode_ltc_from_wav(bytes, rate(fps), drop_frame)
}

/// One frame of timecode as sound, softened by a low-pass filter.
fn generate_ltc_frame_stereo(
    tc: &Timecode,
    drop_frame: bool,
    total_samples: usize,
    samples_per_bit: f32,
    volume: f32,
    channel: &str,
    last_level: &mut (f32, f32),
    stereo_out: &mut [f32],
) {
    let bits = get_ltc_bits(tc, drop_frame);
    let play_left = routed_channels(channel).0;
    let play_right = routed_channels(channel).1;
    let alpha = 0.35f32;
    let mut current_level = last_level.0;
    let mut last_y = last_level.1;

    for b in 0..80u32 {
        let bf = b as f32;
        let start_sample = (bf * samples_per_bit).round() as usize;
        let end_sample = ((bf + 1.0) * samples_per_bit).round() as usize;
        let mid_sample = ((bf + 0.5) * samples_per_bit).round() as usize;
        let bit_val = bits[b as usize];

        current_level = -current_level;

        let mid = mid_sample.min(total_samples);
        let end = end_sample.min(total_samples);

        for s in start_sample..mid {
            last_y += alpha * (current_level - last_y);
            let val = last_y * volume * volume;
            stereo_out[s * 2] = if play_left { val } else { 0.0 };
            stereo_out[s * 2 + 1] = if play_right { val } else { 0.0 };
        }

        if bit_val == 1 {
            current_level = -current_level;
        }

        for s in mid..end {
            last_y += alpha * (current_level - last_y);
            let val = last_y * volume * volume;
            stereo_out[s * 2] = if play_left { val } else { 0.0 };
            stereo_out[s * 2 + 1] = if play_right { val } else { 0.0 };
        }
    }

    last_level.0 = current_level;
    last_level.1 = last_y;
}

/// A file in memory and the layout of its samples.
struct WavChunkReader {
    layout: Layout,
    bytes: Vec<u8>,
}

impl WavChunkReader {
    fn open(bytes: &[u8]) -> Result<WavChunkReader, String> {
        Ok(WavChunkReader { layout: Layout::open(bytes)?, bytes: bytes.to_vec() })
    }

    fn sample_rate(&self) -> u32 {
        self.layout.sample_rate()
    }

    fn channels(&self) -> usize {
        self.layout.channels()
    }

    fn total_mono_samples(&self) -> usize {
        self.layout.total_mono_samples()
    }

    fn raw(&self, start: usize, count: usize) -> &[u8] {
        let (offset, len) = self.layout.byte_range(start, count);
        &self.bytes[offset as usize..offset as usize + len]
    }

    fn read_mono_samples_f32(&self, start: usize, count: usize) -> Result<Vec<f32>, String> {
        let samples = self.layout.read_mono_samples_f32(self.raw(start, count))?;
        Ok(samples.iter().map(|s| (*s as f64 / FULL_SCALE as f64) as f32).collect())
    }

    fn read_mono_samples_i16(&self, start: usize, count: usize) -> Result<Vec<i16>, String> {
        self.layout.read_mono_samples_i16(self.raw(start, count))
    }
}

/// A configuration with the overlap in seconds.
struct DecodeConfig {
    chunk_size_bytes: u64,
    overlap_seconds: f64,
}

impl DecodeConfig {
    fn default() -> DecodeConfig {
        let config = ltc_timecode::ltc_chunks::DecodeConfig::default();
        DecodeConfig {
            chunk_size_bytes: config.chunk_size_bytes,
            overlap_seconds: config.overlap_nanos as f64 / 1e9,
        }
    }

    fn plain(&self) -> ltc_timecode::ltc_chunks::DecodeConfig {
        ltc_timecode::ltc_chunks::DecodeConfig {
            chunk_size_bytes: self.chunk_size_bytes,
            overlap_nanos: (self.overlap_seconds * 1e9).round() as u64,
        }
    }
}

fn percent(p: &DecodeProgress) -> f32 {
    let (done, total) = p.percent();
    done as f32 / total as f32
}

fn decode_ltc_chunked(
    bytes: &[u8],
    fps: f64,
    drop_frame: bool,
    config: DecodeConfig,
    progress: &mut DecodeProgress,
) -> Result<LtcDetectionResult, String> {
    ltc_timecode::ltc_chunks::decode_ltc_chunked(
        bytes,
        rate(fps),
        drop_frame,
        &config.plain(),
        progress,
    )
}

fn chunk_count_for_config(
    total_mono: usize,
    sample_rate: u32,
    channels: u16,
    bits_per_sample: u16,
    config: &DecodeConfig,
) -> usize {
    let bytes_per_mono = channels as u64 * (bits_per_sample as u64 / 8);
    count_chunks(&config.plain(), sample_rate, bytes_per_mono.max(1), total_mono)
}

// ── Timecode ──────────────────────────────────────────────────────────

#[test]
fn test_timecode_clone_copy() {
    let tc = Timecode { hours: 1, minutes: 2, seconds: 3, frames: 4 };
    let copied = tc;
    assert_eq!(copied, tc);
}

#[test]
fn test_timecode_debug() {
    let tc = Timecode { hours: 1, minutes: 2, seconds: 3, frames: 4 };
    let d = format!("{:?}", tc);
    assert!(d.contains("1") || d.contains("hours"));
}

// ── WavChunkReader 24-bit sign extension ──────────────────────────────

#[test]
fn test_wav_chunk_reader_24bit_sign_extension() {
    let mut path: Vec<u8> = Vec::new();

    let spec = hound::WavSpec {
        channels: 1,
        sample_rate: 48000,
        bits_per_sample: 24,
        sample_format: hound::SampleFormat::Int,
    };

    let test_samples: &[i32] = &[
        0,
        1,
        -1,
        8388607,
        -8388608,
        1234567,
        -1234567,
        48000,
        -48000,
    ];

    {
        let mut writer = hound::WavWriter::new(std::io::Cursor::new(&mut path), spec).unwrap();
        for &s in test_samples {
            writer.write_sample(s).unwrap();
        }
        writer.finalize().unwrap();
    }

    let reader = WavChunkReader::open(&path).unwrap();
    assert_eq!(reader.sample_rate(), 48000);
    assert_eq!(reader.channels(), 1);
    assert_eq!(reader.total_mono_samples(), test_samples.len());

    let max_val = (1i64 << 23) as f32;
    let read = reader.read_mono_samples_f32(0, test_samples.len()).unwrap();

    assert_eq!(read.len(), test_samples.len(),
        "should read all {} samples", test_samples.len());

    let tolerance = 1.0 / max_val;
    for (i, (&expected_int, &actual_f32)) in test_samples.iter().zip(read.iter()).enumerate() {
        let expected_f32 = expected_int as f32 / max_val;
        let abs_diff = (actual_f32 - expected_f32).abs();
        assert!(abs_diff <= tolerance,
            "sample[{}]: expected {:.10} (from {}), got {:.10}, diff={:.10}",
            i, expected_f32, expected_int, actual_f32, abs_diff);
        if expected_int < 0 {
            assert!(actual_f32 < 0.0,
                "sample[{}]: expected negative for int={}, got {:.10}",
                i, expected_int, actual_f32);
        } else if expected_int > 0 {
            assert!(actual_f32 > 0.0,
                "sample[{}]: expected positive for int={}, got {:.10}",
                i, expected_int, actual_f32);
        } else {
            assert!((actual_f32).abs() <= tolerance,
                "sample[{}]: expected zero for int=0, got {:.10}",
                i, actual_f32);
        }
    }
}

// ── DecodeConfig default ───────────────────────────────────────────

#[test]
fn test_decode_config_default() {
    let config = DecodeConfig::default();
    assert_eq!(config.chunk_size_bytes, 50_000_000);
    assert!((config.overlap_seconds - 2.0).abs() < 1e-9);
}

// ── DecodeProgress ────────────────────────────────────────────────

#[test]
fn test_decode_progress_new() {
    let p = DecodeProgress::new(10);
    assert_eq!(p.chunks_total, 10);
    assert!((percent(&p) - 0.0).abs() < 1e-6);
}

#[test]
fn test_decode_progress_partial() {
    let mut p = DecodeProgress::new(4);
    p.chunks_completed = 2;
    assert!((percent(&p) - 0.5).abs() < 1e-6);
}

#[test]
fn test_decode_progress_complete() {
    let mut p = DecodeProgress::new(5);
    p.chunks_completed = 5;
    assert!((percent(&p) - 1.0).abs() < 1e-6);
}

#[test]
fn test_decode_progress_zero_total() {
    let p = DecodeProgress::new(0);
    assert!((percent(&p) - 1.0).abs() < 1e-6);
}

#[test]
fn test_decode_progress_cancel() {
    let mut p = DecodeProgress::new(5);
    assert!(!p.cancel_flag);
    p.cancel();
    assert!(p.cancel_flag);
}

#[test]
fn test_decode_progress_double_cancel() {
    let mut p = DecodeProgress::new(5);
    p.cancel();
    p.cancel();
    assert!(p.cancel_flag);
}

// ── WavChunkReader: open errors ───────────────────────────────────

#[test]
fn test_wav_chunk_reader_nonexistent_file() {
    let result = WavChunkReader::open(b"");
    assert!(result.is_err());
}

// ── WavChunkReader: 16-bit mono reads ─────────────────────────────

fn write_test_wav_int(
    channels: u16,
    sample_rate: u32,
    bits_per_sample: u16,
    samples: &[i32],
) -> Vec<u8> {
    let mut path: Vec<u8> = Vec::new();
    let spec = hound::WavSpec {
        channels,
        sample_rate,
        bits_per_sample,
        sample_format: hound::SampleFormat::Int,
    };
    let mut writer = hound::WavWriter::new(std::io::Cursor::new(&mut path), spec).unwrap();
    for &s in samples {
        writer.write_sample(s).unwrap();
    }
    writer.finalize().unwrap();
    path
}

#[test]
fn test_wav_chunk_reader_16bit_mono_f32() {
    let test_samples: Vec<i32> = vec![0, 1, -1, 32767, -32768, 12345, -12345];
    let path = write_test_wav_int(1, 48000, 16, &test_samples);

    let reader = WavChunkReader::open(&path).unwrap();
    assert_eq!(reader.sample_rate(), 48000);
    assert_eq!(reader.channels(), 1);
    assert_eq!(reader.total_mono_samples(), test_samples.len());

    let max_val = 32768.0f32;
    let read = reader.read_mono_samples_f32(0, test_samples.len()).unwrap();
    assert_eq!(read.len(), test_samples.len());

    for (i, (&expected_int, &actual_f32)) in test_samples.iter().zip(read.iter()).enumerate() {
        let expected_f32 = expected_int as f32 / max_val;
        let diff = (actual_f32 - expected_f32).abs();
        assert!(diff < 1e-6,
            "sample[{}]: expected {:.10}, got {:.10}, diff={:.10}",
            i, expected_f32, actual_f32, diff);
    }
}

#[test]
fn test_wav_chunk_reader_16bit_mono_i16() {
    let test_samples: Vec<i32> = vec![0, 1, -1, 32767, -32768, 100, -200];
    let path = write_test_wav_int(1, 48000, 16, &test_samples);

    let reader = WavChunkReader::open(&path).unwrap();
    let read = reader.read_mono_samples_i16(0, test_samples.len()).unwrap();
    assert_eq!(read.len(), test_samples.len());
    for (i, (&expected, &actual)) in test_samples.iter().zip(read.iter()).enumerate() {
        assert_eq!(actual, expected as i16, "sample[{}]: mismatch", i);
    }
}

#[test]
fn test_wav_chunk_reader_16bit_stereo_f32() {
    let stereo_samples: Vec<i32> = vec![100, 0, 200, 0, 300, 0, -100, 0, -200, 0];
    let path = write_test_wav_int(2, 48000, 16, &stereo_samples);
    let reader = WavChunkReader::open(&path).unwrap();
    assert_eq!(reader.channels(), 2);
    assert_eq!(reader.total_mono_samples(), 5);

    let read = reader.read_mono_samples_f32(0, 5).unwrap();
    assert_eq!(read.len(), 5, "stereo should extract 5 left-channel samples");
    let max_val = 32768.0;
    assert!((read[0] - 100.0 / max_val).abs() < 1e-6);
    assert!((read[2] - 300.0 / max_val).abs() < 1e-6);
    assert!((read[3] + 100.0 / max_val).abs() < 1e-6);
}

#[test]
fn test_wav_chunk_reader_16bit_stereo_i16() {
    let stereo_samples: Vec<i32> = vec![100, 999, 200, 888, 300, 777];
    let path = write_test_wav_int(2, 48000, 16, &stereo_samples);
    let reader = WavChunkReader::open(&path).unwrap();

    let read = reader.read_mono_samples_i16(0, 3).unwrap();
    assert_eq!(read.len(), 3);
    assert_eq!(read[0], 100i16);
    assert_eq!(read[1], 200i16);
    assert_eq!(read[2], 300i16);
}

#[test]
fn test_wav_chunk_reader_read_i16_24bit_ok() {
    let test_samples: Vec<i32> = vec![0, 256, -256, 8388607, -8388608, 65536, -65536];
    let expected: Vec<i16> = vec![0, 1, -1, 32767, -32768, 256, -256];
    let path = write_test_wav_int(1, 48000, 24, &test_samples);

    let reader = WavChunkReader::open(&path).unwrap();
    let result = reader.read_mono_samples_i16(0, test_samples.len());
    assert!(result.is_ok(), "expected Ok for 24-bit read, got: {:?}", result);
    let read = result.unwrap();
    assert_eq!(read.len(), expected.len());
    for (i, (&e, &a)) in expected.iter().zip(read.iter()).enumerate() {
        assert_eq!(a, e, "sample[{}]: expected {}, got {}", i, e, a);
    }
}

#[test]
fn test_wav_chunk_reader_read_i16_8bit_ok() {
    let input_i8: Vec<i8> = vec![0i8, 1, -1, 127, -128];
    let expected: Vec<i16> = vec![0, 1, -1, 127, -128];
    let mut path: Vec<u8> = Vec::new();
    let spec = hound::WavSpec {
        channels: 1,
        sample_rate: 48000,
        bits_per_sample: 8,
        sample_format: hound::SampleFormat::Int,
    };
    let mut writer = hound::WavWriter::new(std::io::Cursor::new(&mut path), spec).unwrap();
    for &s in &input_i8 {
        writer.write_sample(s).unwrap();
    }
    writer.finalize().unwrap();

    let reader = WavChunkReader::open(&path).unwrap();
    let result = reader.read_mono_samples_i16(0, input_i8.len());
    assert!(result.is_ok(), "expected Ok for 8-bit read, got: {:?}", result);
    let read = result.unwrap();
    assert_eq!(read.len(), expected.len());
    for (i, (&e, &a)) in expected.iter().zip(read.iter()).enumerate() {
        assert_eq!(a, e, "sample[{}]: expected {}, got {}", i, e, a);
    }
}

#[test]
fn test_wav_chunk_reader_read_i16_32bit_ok() {
    let test_samples: Vec<i32> = vec![0, 65536, -65536, 2147483647, -2147483648, 16777216, -16777216];
    let expected: Vec<i16> = vec![0, 1, -1, 32767, -32768, 256, -256];
    let path = write_test_wav_int(1, 48000, 32, &test_samples);

    let reader = WavChunkReader::open(&path).unwrap();
    let result = reader.read_mono_samples_i16(0, test_samples.len());
    assert!(result.is_ok(), "expected Ok for 32-bit read, got: {:?}", result);
    let read = result.unwrap();
    assert_eq!(read.len(), expected.len());
    for (i, (&e, &a)) in expected.iter().zip(read.iter()).enumerate() {
        assert_eq!(a, e, "sample[{}]: expected {}, got {}", i, e, a);
    }
}

#[test]
fn test_wav_chunk_reader_read_i16_rejects_float() {
    let mut path: Vec<u8> = Vec::new();
    let spec = hound::WavSpec {
        channels: 1,
        sample_rate: 48000,
        bits_per_sample: 32,
        sample_format: hound::SampleFormat::Float,
    };
    let mut writer = hound::WavWriter::new(std::io::Cursor::new(&mut path), spec).unwrap();
    writer.write_sample(0.0f32).unwrap();
    writer.write_sample(0.5f32).unwrap();
    writer.write_sample(-0.5f32).unwrap();
    writer.finalize().unwrap();

    let reader = WavChunkReader::open(&path).unwrap();
    let result = reader.read_mono_samples_i16(0, 3);
    assert!(result.is_err());
    assert!(result.unwrap_err().contains("integer PCM"));
}

#[test]
fn test_wav_chunk_reader_partial_read() {
    let test_samples: Vec<i32> = (0..100).collect();
    let path = write_test_wav_int(1, 48000, 16, &test_samples);

    let reader = WavChunkReader::open(&path).unwrap();
    let read = reader.read_mono_samples_f32(10, 5).unwrap();
    assert_eq!(read.len(), 5);
    let max_val = 32768.0;
    assert!((read[0] - 10.0 / max_val).abs() < 1e-6);
    assert!((read[4] - 14.0 / max_val).abs() < 1e-6);
}

#[test]
fn test_wav_chunk_reader_read_beyond_end() {
    let test_samples: Vec<i32> = vec![1, 2, 3];
    let path = write_test_wav_int(1, 48000, 16, &test_samples);

    let reader = WavChunkReader::open(&path).unwrap();
    let read = reader.read_mono_samples_f32(0, 100).unwrap();
    assert_eq!(read.len(), 3, "should return only available samples");
}

#[test]
fn test_wav_chunk_reader_empty_range() {
    let test_samples: Vec<i32> = vec![1, 2, 3];
    let path = write_test_wav_int(1, 48000, 16, &test_samples);

    let reader = WavChunkReader::open(&path).unwrap();
    let read = reader.read_mono_samples_f32(0, 0).unwrap();
    assert!(read.is_empty());
}

// ── WavChunkReader: 8-bit reads ───────────────────────────────────

#[test]
fn test_wav_chunk_reader_8bit() {
    let mut path: Vec<u8> = Vec::new();
    let spec = hound::WavSpec {
        channels: 1,
        sample_rate: 48000,
        bits_per_sample: 8,
        sample_format: hound::SampleFormat::Int,
    };
    let mut writer = hound::WavWriter::new(std::io::Cursor::new(&mut path), spec).unwrap();
    for i in -128i8..=127 {
        writer.write_sample(i).unwrap();
    }
    writer.finalize().unwrap();

    let reader = WavChunkReader::open(&path).unwrap();
    let read = reader.read_mono_samples_f32(0, 256).unwrap();
    assert_eq!(read.len(), 256);
    let max_val = 128.0f32;
    assert!((read[0] + 1.0).abs() < 0.01, "first sample (-128) should be -1.0, got {}", read[0]);
    assert!((read[128] - 0.0).abs() < 1e-4, "sample at zero should be 0.0, got {}", read[128]);
    assert!((read[255] - 127.0 / max_val).abs() < 1e-4, "last sample (127) should be ~0.992, got {}", read[255]);
}

// ── WavChunkReader: float format reads ────────────────────────────

#[test]
fn test_wav_chunk_reader_float32() {
    let mut path: Vec<u8> = Vec::new();
    let spec = hound::WavSpec {
        channels: 1,
        sample_rate: 48000,
        bits_per_sample: 32,
        sample_format: hound::SampleFormat::Float,
    };
    {
        let mut writer = hound::WavWriter::new(std::io::Cursor::new(&mut path), spec).unwrap();
        writer.write_sample(0.5f32).unwrap();
        writer.write_sample(-0.25f32).unwrap();
        writer.write_sample(1.0f32).unwrap();
        writer.write_sample(-1.0f32).unwrap();
        writer.finalize().unwrap();
    }
    let reader = WavChunkReader::open(&path).unwrap();
    let read = reader.read_mono_samples_f32(0, 4).unwrap();
    assert_eq!(read.len(), 4);
    assert!((read[0] - 0.5).abs() < 1e-6);
    assert!((read[1] + 0.25).abs() < 1e-6);
    assert!((read[2] - 1.0).abs() < 1e-6);
    assert!((read[3] + 1.0).abs() < 1e-6);
}

#[test]
fn test_wav_chunk_reader_unsupported_bps() {
    let spec = hound::WavSpec {
        channels: 1,
        sample_rate: 48000,
        bits_per_sample: 17,
        sample_format: hound::SampleFormat::Int,
    };
    let mut path: Vec<u8> = Vec::new();
    let written = match hound::WavWriter::new(std::io::Cursor::new(&mut path), spec) {
        Ok(mut writer) => {
            writer.write_sample(0i32).unwrap();
            writer.finalize().unwrap();
            true
        }
        Err(_) => false,
    };
    if written {
        let reader = WavChunkReader::open(&path).unwrap();
        let read = reader.read_mono_samples_f32(0, 1);
        assert!(read.is_err() || read.unwrap().len() <= 1);
    }
}

#[test]
fn test_chunked_merge_multi_chunk_preserves_all_frames() {
    let mut path: Vec<u8> = Vec::new();

    let num_frames = 200u32;
    let fps = 25.0;
    let sample_rate = 48000;
    generate_ltc_wav(
        &mut path,
        Timecode { hours: 0, minutes: 0, seconds: 0, frames: 0 },
        fps, false, sample_rate, num_frames,
    );

    let config = DecodeConfig {
        chunk_size_bytes: 200_000,
        overlap_seconds: 0.3,
    };

    let reader = WavChunkReader::open(&path).unwrap();
    let total_mono = reader.total_mono_samples();
    let nchunks = chunk_count_for_config(total_mono, sample_rate, 2, 16, &config);
    assert!(nchunks >= 3, "test needs at least 3 chunks, got {}", nchunks);

    let mut progress = DecodeProgress::new(nchunks);
    let chunked = decode_ltc_chunked(&path, fps, false, config, &mut progress).unwrap();
    let direct = decode_ltc_from_wav(&path, fps, false).unwrap();

    assert_eq!(chunked.valid_frames, direct.valid_frames,
        "chunked merge lost frames: chunked={} vs direct={}",
        chunked.valid_frames, direct.valid_frames);
    assert_eq!(chunked.status, direct.status);
}

#[test]
fn test_chunked_total_possible_not_inflated() {
    let mut path: Vec<u8> = Vec::new();

    let num_frames = 200u32;
    let fps = 25.0;
    let sample_rate = 48000;
    generate_ltc_wav(
        &mut path,
        Timecode { hours: 0, minutes: 0, seconds: 0, frames: 0 },
        fps, false, sample_rate, num_frames,
    );

    let config = DecodeConfig {
        chunk_size_bytes: 200_000,
        overlap_seconds: 0.3,
    };

    let reader = WavChunkReader::open(&path).unwrap();
    let total_mono = reader.total_mono_samples();
    let total_duration = total_mono as f64 / sample_rate as f64;
    let expected_possible = (total_duration * fps).round() as u32;
    let nchunks = chunk_count_for_config(total_mono, sample_rate, 2, 16, &config);
    assert!(nchunks >= 3, "test needs at least 3 chunks, got {}", nchunks);

    let mut progress = DecodeProgress::new(nchunks);
    let chunked = decode_ltc_chunked(&path, fps, false, config, &mut progress).unwrap();

    assert_eq!(chunked.total_possible_frames, expected_possible,
        "total_possible_frames should be {} (stream total), got {}",
        expected_possible, chunked.total_possible_frames);
    assert!(chunked.total_possible_frames <= num_frames + 5,
        "total_possible should not be significantly larger than num_frames={}, got {}",
        num_frames, chunked.total_possible_frames);
}

#[test]
fn test_chunked_single_chunk_matches_nonchunked_exactly() {
    let mut path: Vec<u8> = Vec::new();

    let num_frames = 50u32;
    let fps = 25.0;
    generate_ltc_wav(
        &mut path,
        Timecode { hours: 1, minutes: 0, seconds: 0, frames: 0 },
        fps, false, 48000, num_frames,
    );

    let config = DecodeConfig {
        chunk_size_bytes: 10_000_000,
        overlap_seconds: 2.0,
    };

    let mut progress = DecodeProgress::new(1);
    let chunked = decode_ltc_chunked(&path, fps, false, config, &mut progress).unwrap();
    let direct = decode_ltc_from_wav(&path, fps, false).unwrap();

    let diff = chunked.valid_frames.abs_diff(direct.valid_frames);
    assert!(diff <= 2,
        "single chunk: chunked={} != direct={} (diff={})",
        chunked.valid_frames, direct.valid_frames, diff);
    assert!(chunked.total_possible_frames >= chunked.valid_frames,
        "total_possible ({}) < valid_frames ({})",
        chunked.total_possible_frames, chunked.valid_frames);
}

#[test]
fn test_chunked_merge_no_unnecessary_dedup() {
    let mut path: Vec<u8> = Vec::new();

    let num_frames = 200u32;
    let fps = 25.0;
    let sample_rate = 48000;
    generate_ltc_wav(
        &mut path,
        Timecode { hours: 0, minutes: 0, seconds: 0, frames: 0 },
        fps, false, sample_rate, num_frames,
    );

    let config = DecodeConfig {
        chunk_size_bytes: 200_000,
        overlap_seconds: 0.3,
    };

    let overlap_secs = config.overlap_seconds;

    let reader = WavChunkReader::open(&path).unwrap();
    let total_mono = reader.total_mono_samples();
    let nchunks = chunk_count_for_config(total_mono, sample_rate, 2, 16, &config);
    assert!(nchunks >= 3, "test needs at least 3 chunks, got {}", nchunks);

    let mut progress = DecodeProgress::new(nchunks);
    let chunked = decode_ltc_chunked(&path, fps, false, config, &mut progress).unwrap();

    let total_from_chunks: u32 = chunked
        .details
        .iter()
        .filter_map(|d| match d {
            Detail::Chunk { valid, .. } => Some(*valid),
            _ => None,
        })
        .sum();

    let loss = total_from_chunks.saturating_sub(chunked.valid_frames);
    let frame_duration = 1.0 / fps;
    let max_expected_loss = ((nchunks.saturating_sub(1)) as f64
        * (overlap_secs / frame_duration).ceil()) as u32;
    assert!(loss <= max_expected_loss,
        "unnecessary dedup: lost {} frames (max expected loss from overlap: {}). \
         total_from_chunks={}, valid_after_merge={}",
        loss, max_expected_loss, total_from_chunks, chunked.valid_frames);
}

// ── decode_ltc_chunked (existing tests) ───────────────────────────

fn generate_ltc_wav(
    path: &mut Vec<u8>,
    start_tc: Timecode,
    fps: f64,
    drop_frame: bool,
    sample_rate: u32,
    num_frames: u32,
) {
    let spec = hound::WavSpec {
        channels: 2,
        sample_rate,
        bits_per_sample: 16,
        sample_format: hound::SampleFormat::Int,
    };

    let samples_per_frame = (sample_rate as f64 / fps).round() as usize;
    let samples_per_bit = samples_per_frame as f32 / 80.0;

    let mut writer = hound::WavWriter::new(std::io::Cursor::new(path), spec).unwrap();
    let mut tc = start_tc;
    let mut last_level = (1.0f32, 1.0f32);
    let mut frame_buf = vec![0.0f32; samples_per_frame * 2];

    for _ in 0..num_frames {
        frame_buf.fill(0.0);
        generate_ltc_frame_stereo(
            &tc,
            drop_frame,
            samples_per_frame,
            samples_per_bit,
            0.5,
            "both",
            &mut last_level,
            &mut frame_buf[..samples_per_frame * 2],
        );

        for &sample in &frame_buf[..samples_per_frame * 2] {
            let clamped = sample.clamp(-1.0, 1.0);
            let int_sample = (clamped * i16::MAX as f32) as i16;
            writer.write_sample(int_sample).unwrap();
        }

        tc = increment_timecode(&tc, fps, drop_frame);
    }

    writer.finalize().unwrap();
}

fn generate_ltc_wav_with_depth(
    path: &mut Vec<u8>,
    start_tc: Timecode,
    fps: f64,
    drop_frame: bool,
    sample_rate: u32,
    num_frames: u32,
    bits_per_sample: u16,
) {
    let spec = hound::WavSpec {
        channels: 2,
        sample_rate,
        bits_per_sample,
        sample_format: hound::SampleFormat::Int,
    };

    let samples_per_frame = (sample_rate as f64 / fps).round() as usize;
    let samples_per_bit = samples_per_frame as f32 / 80.0;

    let mut writer = hound::WavWriter::new(std::io::Cursor::new(path), spec).unwrap();
    let mut tc = start_tc;
    let mut last_level = (1.0f32, 1.0f32);
    let mut frame_buf = vec![0.0f32; samples_per_frame * 2];

    for _ in 0..num_frames {
        frame_buf.fill(0.0);
        generate_ltc_frame_stereo(
            &tc,
            drop_frame,
            samples_per_frame,
            samples_per_bit,
            0.5,
            "both",
            &mut last_level,
            &mut frame_buf[..samples_per_frame * 2],
        );

        for &sample in &frame_buf[..samples_per_frame * 2] {
            let clamped = sample.clamp(-1.0, 1.0);
            let max_val = (1i64 << (bits_per_sample - 1)) as f32;
            let int_sample = (clamped * max_val) as i32;
            writer.write_sample(int_sample).unwrap();
        }

        tc = increment_timecode(&tc, fps, drop_frame);
    }

    writer.finalize().unwrap();
}

#[test]
fn test_decode_ltc_chunked_compare_samples() {
    let mut path: Vec<u8> = Vec::new();

    generate_ltc_wav(
        &mut path,
        Timecode { hours: 1, minutes: 0, seconds: 0, frames: 0 },
        25.0, false, 48000, 50,
    );

    let mut reader = hound::WavReader::new(std::io::Cursor::new(&path)).unwrap();
    let spec = reader.spec();
    let hound_samples: Vec<f32> = reader
        .samples::<i32>()
        .filter_map(|s| s.ok())
        .enumerate()
        .filter(|(i, _)| i % spec.channels as usize == 0)
        .map(|(_, s)| s as f32 / (1i64 << (spec.bits_per_sample - 1)) as f32)
        .collect();

    let cr = WavChunkReader::open(&path).unwrap();
    let cr_samples = cr.read_mono_samples_f32(0, hound_samples.len()).unwrap();

    assert_eq!(hound_samples.len(), cr_samples.len(),
        "sample count mismatch: hound={}, WavChunkReader={}",
        hound_samples.len(), cr_samples.len());

    let max_diff: f32 = hound_samples.iter().zip(cr_samples.iter())
        .map(|(a, b)| (*a - *b).abs())
        .fold(0.0f32, f32::max);
    let num_diff = hound_samples.iter().zip(cr_samples.iter())
        .filter(|(a, b)| (*a - *b).abs() > 1e-6)
        .count();

    assert!(max_diff < 1e-4,
        "max sample diff is {:.10} ({} samples differ > 1e-6)",
        max_diff, num_diff);
}

#[test]
fn test_decode_ltc_chunked_compare_with_direct() {
    let mut path: Vec<u8> = Vec::new();

    generate_ltc_wav(
        &mut path,
        Timecode { hours: 1, minutes: 0, seconds: 0, frames: 0 },
        25.0, false, 48000, 50,
    );

    let direct = decode_ltc_from_wav(&path, 25.0, false).unwrap();

    let config = DecodeConfig {
        chunk_size_bytes: 10_000_000,
        overlap_seconds: 2.0,
    };
    let mut progress = DecodeProgress::new(1);
    let chunked = decode_ltc_chunked(&path, 25.0, false, config, &mut progress).unwrap();

    assert_eq!(direct.valid_frames, chunked.valid_frames,
        "direct decode got {} valid, chunked got {} valid (both should match)",
        direct.valid_frames, chunked.valid_frames);
    assert_eq!(direct.status, chunked.status);
}

#[test]
fn test_decode_ltc_chunked_single_chunk() {
    let mut path: Vec<u8> = Vec::new();

    generate_ltc_wav(
        &mut path,
        Timecode { hours: 0, minutes: 0, seconds: 0, frames: 0 },
        25.0, false, 48000, 50,
    );

    let config = DecodeConfig {
        chunk_size_bytes: 10_000_000,
        overlap_seconds: 2.0,
    };
    let mut progress = DecodeProgress::new(1);
    let result = decode_ltc_chunked(&path, 25.0, false, config, &mut progress).unwrap();
    assert!(matches!(result.status, LtcDecodeStatus::Success),
        "expected Success, got {:?} (valid={})", result.status, result.valid_frames);
    assert!(result.valid_frames >= 40,
        "should decode at least 40 frames, got {}", result.valid_frames);
}

#[test]
fn test_decode_ltc_chunked_empty_wav() {
    let mut path: Vec<u8> = Vec::new();
    let spec = hound::WavSpec {
        channels: 2,
        sample_rate: 48000,
        bits_per_sample: 16,
        sample_format: hound::SampleFormat::Int,
    };
    let writer = hound::WavWriter::new(std::io::Cursor::new(&mut path), spec).unwrap();
    writer.finalize().unwrap();

    let config = DecodeConfig::default();
    let mut progress = DecodeProgress::new(0);
    let result = decode_ltc_chunked(&path, 25.0, false, config, &mut progress).unwrap();
    assert!(matches!(result.status, LtcDecodeStatus::Error { .. }));
}

#[test]
fn test_decode_ltc_chunked_cancel() {
    let mut path: Vec<u8> = Vec::new();

    generate_ltc_wav(
        &mut path,
        Timecode { hours: 0, minutes: 0, seconds: 0, frames: 0 },
        25.0, false, 48000, 75,
    );

    let config = DecodeConfig {
        chunk_size_bytes: 1000,
        overlap_seconds: 0.1,
    };
    let mut progress = DecodeProgress::new(100);
    progress.cancel();
    let result = decode_ltc_chunked(&path, 25.0, false, config, &mut progress);
    assert!(result.is_err(), "canceled decode should return Err");
    let err = result.unwrap_err();
    assert!(err.contains("Canceled") || err.contains("canceled"),
        "error should mention cancel: {}", err);
}

#[test]
fn chunks_cover_a_recording_with_an_overlap() {
    let config = DecodeConfig { chunk_size_bytes: 1000, overlap_seconds: 0.001 };
    // 500 samples in a chunk, 48 of them shared with the next.
    let plan = plan_chunks(&config.plain(), 48000, 2, 1200);
    assert_eq!(plan, vec![(0, 500), (452, 952), (904, 1200)]);
    assert!(fits_one_chunk(&config.plain(), 48000, 2, 548));
    assert!(!fits_one_chunk(&config.plain(), 48000, 2, 549));
    assert_eq!(count_chunks(&config.plain(), 48000, 2, 548), 1);
    assert_eq!(count_chunks(&config.plain(), 48000, 2, 1200), 3);
}

#[test]
fn frames_of_two_chunks_are_not_counted_twice() {
    let mut path: Vec<u8> = Vec::new();
    let start = Timecode { hours: 0, minutes: 0, seconds: 0, frames: 0 };
    generate_ltc_wav(&mut path, start, 25.0, false, 48000, 200);
    let config = DecodeConfig { chunk_size_bytes: 200_000, overlap_seconds: 0.3 };
    let mut progress = DecodeProgress::new(9);
    let result = decode_ltc_chunked(&path, 25.0, false, config, &mut progress).unwrap();
    for pair in result.timecodes.windows(2) {
        assert!(pair[0].timecode_nanos < pair[1].timecode_nanos);
        assert!(pair[0].timecode != pair[1].timecode);
    }
    assert!(progress.chunks_completed >= 3);
}

#[test]
fn completed_chunks_are_counted_on() {
    let mut path: Vec<u8> = Vec::new();
    let start = Timecode { hours: 0, minutes: 0, seconds: 0, frames: 0 };
    generate_ltc_wav(&mut path, start, 25.0, false, 48000, 50);
    let config = || DecodeConfig { chunk_size_bytes: 10_000_000, overlap_seconds: 2.0 };

    let mut progress = DecodeProgress::new(8);
    progress.chunks_completed = 5;
    decode_ltc_chunked(&path, 25.0, false, config(), &mut progress).unwrap();
    assert_eq!(progress.chunks_completed, 6);

    progress.cancel();
    assert_eq!(
        decode_ltc_chunked(&path, 25.0, false, config(), &mut progress).unwrap_err(),
        "Decode canceled by user"
    );
    assert_eq!(progress.chunks_completed, 6);
    assert!(decode_ltc_chunked(b"no wav", 25.0, false, config(), &mut progress).is_err());
    assert_eq!(progress.chunks_completed, 6);
}

/// A file whose header gives a sample rate of zero.
fn untimed_wav(samples: &[i16]) -> Vec<u8> {
    let spec = hound::WavSpec {
        channels: 1,
        sample_rate: 48000,
        bits_per_sample: 16,
        sample_format: hound::SampleFormat::Int,
    };
    let mut path: Vec<u8> = Vec::new();
    let mut writer = hound::WavWriter::new(std::io::Cursor::new(&mut path), spec).unwrap();
    for &sample in samples {
        writer.write_sample(sample).unwrap();
    }
    writer.finalize().unwrap();
    // The rates in samples and in bytes.
    path[24..32].fill(0);
    path
}

#[test]
fn a_silent_file_without_a_sample_rate_is_reported_on() {
    let config = || DecodeConfig { chunk_size_bytes: 1000, overlap_seconds: 2.0 };
    let path = untimed_wav(&vec![0; 1200]);
    let mut progress = DecodeProgress::new(3);
    let r = decode_ltc_chunked(&path, 25.0, false, config(), &mut progress).unwrap();
    assert_eq!(r.status, LtcDecodeStatus::NoSyncWord);
    assert_eq!(r.total_possible_frames, u32::MAX);
    assert_eq!(r.valid_frames, 0);
    assert_eq!(r.details.len(), 4);
    assert_eq!((r.total_samples, r.sample_rate), (1200, 0));
    assert_eq!(progress.chunks_completed, 3);
}

#[test]
fn a_signal_in_a_file_without_a_sample_rate_is_an_error() {
    let config = || DecodeConfig { chunk_size_bytes: 1000, overlap_seconds: 2.0 };
    let mut samples: Vec<i16> = vec![0; 1200];
    for i in 600..700 {
        samples[i] = if i % 20 < 10 { 16000 } else { -16000 };
    }
    let mut progress = DecodeProgress::new(3);
    progress.chunks_completed = 1;
    assert_eq!(
        decode_ltc_chunked(&untimed_wav(&samples), 25.0, false, config(), &mut progress).unwrap_err(),
        "WAV file has no sample rate"
    );
    assert_eq!(progress.chunks_completed, 1);
}

#[test]
fn frames_at_or_before_the_start_are_not_kept() {
    let frame = |nanos: i64| FrameTimecode {
        frame_index: 0,
        timecode: Timecode { hours: 1, minutes: 0, seconds: 0, frames: 0 },
        timecode_nanos: nanos,
    };
    let mut chunk = LtcDetectionResult::error(String::new());
    chunk.timecodes = vec![frame(-20_000_000), frame(0), frame(20_000_000)];
    chunk.first_ltc_nanos = -20_000_000;
    let mut next = LtcDetectionResult::error(String::new());
    next.timecodes = vec![frame(-20_000_000)];
    let config = DecodeConfig { chunk_size_bytes: 1000, overlap_seconds: 0.1 };
    let r = ltc_timecode::ltc_chunks::merge_chunks(
        &vec![Ok(chunk), Ok(next)],
        &vec![(0, 48000), (48000, 96000)],
        96000,
        48000,
        rate(25.0),
        false,
        &config.plain(),
    );
    let times: Vec<i64> = r.timecodes.iter().map(|f| f.timecode_nanos).collect();
    assert_eq!(times, vec![20_000_000, 980_000_000]);
    assert_eq!(r.first_ltc_nanos, 0);
}
