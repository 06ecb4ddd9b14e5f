//! Decoding long recordings in overlapping chunks: planning the chunks, reading
//! raw samples, and merging what was decoded.

use vstd::prelude::*;

use crate::ltc_decoder::{
    apply_coherent_first_timecode, coherent_report, decode_ltc_samples, decodes, find_signal,
    is_signal, no_share, reindexed, status_for, untimed_signal, Detail, FrameTimecode,
    LtcDetectionResult, Recording, Report, Share,
};
use crate::text::{decimal, push_decimal};
use crate::timecode::FrameRate;
use crate::wav::{
    float_to_fixed, float_value, header_of, int_to_fixed, int_value, le_u32, read_le_u32, wav_info,
    WavInfo,
};

verus! {

/// How a recording is divided into chunks.
#[derive(Clone, Copy, Debug, PartialEq, Eq, Structural)]
pub struct DecodeConfig {
    /// The size of the raw audio of a chunk, in bytes.
    pub chunk_size_bytes: u64,
    /// How far neighbouring chunks overlap.
    pub overlap_nanos: u64,
}

impl Default for DecodeConfig {
    /// Chunks of fifty megabytes that overlap by two seconds.
    fn default() -> (r: DecodeConfig)
        ensures
            r.chunk_size_bytes == 50_000_000,
            r.overlap_nanos == 2_000_000_000,
    {
        DecodeConfig { chunk_size_bytes: 50_000_000, overlap_nanos: 2_000_000_000 }
    }
}

/// How far a chunked decode has come.
#[derive(Clone, Copy, Debug, PartialEq, Eq, Structural)]
pub struct DecodeProgress {
    pub chunks_total: usize,
    pub chunks_completed: usize,
    pub cancel_flag: bool,
}

impl DecodeProgress {
    /// Nothing completed yet, out of `chunks_total` chunks.
    pub fn new(chunks_total: usize) -> (r: Self)
        ensures
            r.chunks_total == chunks_total,
            r.chunks_completed == 0,
            !r.cancel_flag,
    {
        DecodeProgress { chunks_total, chunks_completed: 0, cancel_flag: false }
    }

    /// The completed part as numerator and denominator; nothing to do is complete.
    pub fn percent(&self) -> (r: (usize, usize))
        ensures
            self.chunks_total == 0 ==> r == (1usize, 1usize),
            self.chunks_total > 0 ==> r == (self.chunks_completed, self.chunks_total),
    {
        if self.chunks_total == 0 {
            (1, 1)
        } else {
            (self.chunks_completed, self.chunks_total)
        }
    }

    /// Asks for the decode to stop.
    pub fn cancel(&mut self)
        ensures
            *final(self) == (DecodeProgress { cancel_flag: true, ..*old(self) }),
    {
        self.cancel_flag = true;
    }
}

// ── Planning ───────────────────────────────────────────────────────────────

/// The samples in `nanos` nanoseconds, rounded down.
pub open spec fn samples_in(nanos: u64, sample_rate: u32) -> nat {
    ((nanos * sample_rate) / 1_000_000_000) as nat
}

/// How many samples overlap; more than can be counted is as many as can.
pub open spec fn overlap_samples(config: DecodeConfig, sample_rate: u32) -> nat {
    let n = samples_in(config.overlap_nanos, sample_rate);
    if n > usize::MAX / 2 {
        (usize::MAX / 2) as nat
    } else {
        n
    }
}

/// How many samples a chunk has: what its size in bytes holds, or a quarter of
/// the recording where a sample has no size, but at least twice the overlap.
pub open spec fn chunk_samples(config: DecodeConfig, sample_rate: u32, bytes_per_sample: u64, total: nat) -> nat {
    let by_size: nat = if bytes_per_sample == 0 {
        total / 4
    } else {
        (config.chunk_size_bytes / bytes_per_sample) as usize as nat
    };
    if by_size < 2 * overlap_samples(config, sample_rate) {
        2 * overlap_samples(config, sample_rate)
    } else {
        by_size
    }
}

/// The end of the chunk that begins at `pos`.
pub open spec fn chunk_end(pos: int, chunk: nat, total: nat) -> int {
    if pos + chunk < total {
        pos + chunk
    } else {
        total as int
    }
}

/// The start of the next chunk: the overlap before the end of this one.
pub open spec fn next_chunk(pos: int, chunk: nat, overlap: nat, total: nat) -> int {
    let end = chunk_end(pos, chunk, total);
    if end > overlap {
        end - overlap
    } else {
        0
    }
}

/// The chunks from `pos` on, up to the one that reaches the end or after which
/// no progress would be made.
pub open spec fn chunk_plan(pos: nat, chunk: nat, overlap: nat, total: nat) -> Seq<(usize, usize)>
    decreases total - pos,
{
    if pos >= total {
        seq![]
    } else {
        let here = (pos as usize, chunk_end(pos as int, chunk, total) as usize);
        let next = next_chunk(pos as int, chunk, overlap, total);
        if chunk_end(pos as int, chunk, total) >= total || next <= pos {
            seq![here]
        } else {
            seq![here] + chunk_plan(next as nat, chunk, overlap, total)
        }
    }
}

fn overlap_length(config: &DecodeConfig, sample_rate: u32) -> (r: usize)
    ensures
        r == overlap_samples(*config, sample_rate),
        r <= usize::MAX / 2,
{
    proof {
        assert(0 <= config.overlap_nanos * sample_rate <= 0xffff_ffff_ffff_ffff * 0xffff_ffff)
            by (nonlinear_arith)
            requires
                0 <= config.overlap_nanos <= 0xffff_ffff_ffff_ffff,
                0 <= sample_rate <= 0xffff_ffff,
        ;
    }
    let n: u128 = (config.overlap_nanos as u128 * sample_rate as u128) / 1_000_000_000;
    if n > (usize::MAX / 2) as u128 {
        usize::MAX / 2
    } else {
        n as usize
    }
}

fn chunk_length(config: &DecodeConfig, sample_rate: u32, bytes_per_mono_sample: u64, total: usize) -> (r: usize)
    ensures
        r == chunk_samples(*config, sample_rate, bytes_per_mono_sample, total as nat),
{
    let overlap: usize = overlap_length(config, sample_rate);
    let by_size: usize = if bytes_per_mono_sample == 0 {
        total / 4
    } else {
        (config.chunk_size_bytes / bytes_per_mono_sample) as usize
    };
    if by_size < 2 * overlap {
        2 * overlap
    } else {
        by_size
    }
}

/// A recording that is not longer than a chunk and an overlap is read as a whole.
pub open spec fn one_chunk(config: DecodeConfig, sample_rate: u32, bytes_per_sample: u64, total: nat) -> bool {
    total <= chunk_samples(config, sample_rate, bytes_per_sample, total) + overlap_samples(
        config,
        sample_rate,
    )
}

/// Whether a recording is read as a whole.
pub fn fits_one_chunk(config: &DecodeConfig, sample_rate: u32, bytes_per_mono_sample: u64, total: usize) -> (r: bool)
    ensures
        r == one_chunk(*config, sample_rate, bytes_per_mono_sample, total as nat),
{
    let overlap: usize = overlap_length(config, sample_rate);
    let chunk: usize = chunk_length(config, sample_rate, bytes_per_mono_sample, total);
    total <= chunk || total - chunk <= overlap
}

/// The number of chunks a recording is read in.
pub open spec fn chunk_total(config: DecodeConfig, sample_rate: u32, bytes_per_sample: u64, total: nat) -> nat {
    if one_chunk(config, sample_rate, bytes_per_sample, total) {
        1
    } else {
        chunk_plan(
            0,
            chunk_samples(config, sample_rate, bytes_per_sample, total),
            overlap_samples(config, sample_rate),
            total,
        ).len()
    }
}

/// Counts the chunks a recording is read in.
pub fn count_chunks(config: &DecodeConfig, sample_rate: u32, bytes_per_mono_sample: u64, total: usize) -> (r: usize)
    ensures
        r == chunk_total(*config, sample_rate, bytes_per_mono_sample, total as nat),
{
    if fits_one_chunk(config, sample_rate, bytes_per_mono_sample, total) {
        1
    } else {
        plan_chunks(config, sample_rate, bytes_per_mono_sample, total).len()
    }
}

/// Divides a recording of `total` samples into overlapping chunks.
pub fn plan_chunks(
    config: &DecodeConfig,
    sample_rate: u32,
    bytes_per_mono_sample: u64,
    total: usize,
) -> (r: Vec<(usize, usize)>)
    ensures
        r@ == chunk_plan(
            0,
            chunk_samples(*config, sample_rate, bytes_per_mono_sample, total as nat),
            overlap_samples(*config, sample_rate),
            total as nat,
        ),
{
    let overlap: usize = overlap_length(config, sample_rate);
    let chunk: usize = chunk_length(config, sample_rate, bytes_per_mono_sample, total);
    let mut out: Vec<(usize, usize)> = Vec::new();
    let mut pos: usize = 0;
    while pos < total
        invariant
            chunk == chunk_samples(*config, sample_rate, bytes_per_mono_sample, total as nat),
            overlap == overlap_samples(*config, sample_rate),
            out@ + chunk_plan(pos as nat, chunk as nat, overlap as nat, total as nat)
                == chunk_plan(0, chunk as nat, overlap as nat, total as nat),
        decreases total - pos,
    {
        let end: usize = if chunk < total - pos {
            pos + chunk
        } else {
            total
        };
        let next: usize = if end > overlap {
            end - overlap
        } else {
            0
        };
        let ghost before = out@;
        out.push((pos, end));
        if end >= total || next <= pos {
            assert(before + seq![(pos, end)] =~= out@);
            return out;
        }
        assert(before + (seq![(pos, end)] + chunk_plan(
            next as nat,
            chunk as nat,
            overlap as nat,
            total as nat,
        )) =~= out@ + chunk_plan(next as nat, chunk as nat, overlap as nat, total as nat));
        pos = next;
    }
    assert(out@ + Seq::<(usize, usize)>::empty() =~= out@);
    out
}

/// Chunks cover a recording without a gap: the first begins at its start, the
/// last ends at its end, and every chunk begins no later than the one before it
/// ends, overlapping it by `overlap` samples.
pub proof fn law_chunks_cover(pos: nat, chunk: nat, overlap: nat, total: nat)
    requires
        pos < total <= usize::MAX,
        chunk > 0,
        chunk >= 2 * overlap,
    ensures
        ({
            let plan = chunk_plan(pos, chunk, overlap, total);
            &&& plan.len() > 0
            &&& plan[0].0 == pos
            &&& plan.last().1 == total
            &&& forall|k: int|
                0 <= k < plan.len() ==> (#[trigger] plan[k]).0 < plan[k].1 && plan[k].1 - plan[k].0
                    <= chunk
            &&& forall|k: int|
                0 < k < plan.len() ==> (#[trigger] plan[k]).0 + overlap == plan[k - 1].1
        }),
    decreases total - pos,
{
    let plan = chunk_plan(pos, chunk, overlap, total);
    let end = chunk_end(pos as int, chunk, total);
    let next = next_chunk(pos as int, chunk, overlap, total);
    let here = (pos as usize, end as usize);
    if end < total {
        assert(next > pos);
        law_chunks_cover(next as nat, chunk, overlap, total);
        let rest = chunk_plan(next as nat, chunk, overlap, total);
        assert(plan =~= seq![here] + rest);
        assert forall|k: int| 0 <= k < plan.len() implies (#[trigger] plan[k]).0 < plan[k].1
            && plan[k].1 - plan[k].0 <= chunk by {
            if k > 0 {
                assert(plan[k] == rest[k - 1]);
            }
        }
        assert forall|k: int| 0 < k < plan.len() implies (#[trigger] plan[k]).0 + overlap
            == plan[k - 1].1 by {
            assert(plan[k] == rest[k - 1]);
            if k > 1 {
                assert(plan[k - 1] == rest[k - 2]);
            }
        }
        assert(plan.last() == rest.last());
    } else {
        assert(plan =~= seq![here]);
    }
}

// ── Raw samples ────────────────────────────────────────────────────────────

/// The layout of the samples in a WAV file, for reading it in pieces.
#[derive(Clone, Copy, Debug, PartialEq, Eq, Structural)]
pub struct WavChunkReader {
    spec: WavInfo,
    data_len: u64,
    total_mono_samples: usize,
}

impl WavChunkReader {
    /// What the header says.
    pub closed spec fn header(self) -> WavInfo {
        self.spec
    }

    /// The bytes from the first sample to the end of the file.
    pub closed spec fn data_bytes(self) -> u64 {
        self.data_len
    }

    /// The samples in each channel that these bytes hold.
    pub closed spec fn mono_samples(self) -> usize {
        self.total_mono_samples
    }

    /// The whole bytes in a sample.
    pub open spec fn sample_bytes(self) -> nat {
        self.header().bits_per_sample as nat / 8
    }

    /// The bytes in one sample of every channel.
    pub open spec fn frame_bytes(self) -> nat {
        self.header().channels as nat * self.sample_bytes()
    }

    /// The layout belongs to a file of `file_len` bytes with this header.
    pub open spec fn lays_out(self, info: WavInfo, file_len: u64) -> bool {
        &&& self.header() == info
        &&& self.data_bytes() == if file_len > info.data_offset {
            (file_len - info.data_offset) as u64
        } else {
            0
        }
        &&& self.mono_samples() == (self.data_bytes() / (info.bits_per_sample / 8) as u64
            / info.channels as u64) as usize
    }

    /// The layout of a file of `file_len` bytes with the given header.
    pub fn from_info(info: WavInfo, file_len: u64) -> (r: Self)
        requires
            info.bits_per_sample >= 8,
            info.channels > 0,
        ensures
            r.lays_out(info, file_len),
    {
        let data_len: u64 = if file_len > info.data_offset {
            file_len - info.data_offset
        } else {
            0
        };
        let bytes_per_sample: u64 = (info.bits_per_sample / 8) as u64;
        WavChunkReader {
            spec: info,
            data_len,
            total_mono_samples: (data_len / bytes_per_sample / info.channels as u64) as usize,
        }
    }

    /// The layout of a WAV file in memory.
    ///
    /// A header that is not accepted, or that gives a sample less than a byte,
    /// is an error.
    pub fn open(bytes: &[u8]) -> (r: Result<Self, String>)
        ensures
            match header_of(bytes@) {
                Err(text) => r matches Err(e) && e@ == "Failed to read WAV header: "@ + text,
                Ok(info) => if info.bits_per_sample < 8 {
                    r matches Err(e) && e@ == "Samples are smaller than a byte"@
                } else {
                    r matches Ok(reader) && reader.lays_out(info, bytes@.len() as u64)
                },
            },
            r matches Ok(reader) ==> reader.header().channels > 0 && reader.header().bits_per_sample
                >= 8 && reader.header().data_offset <= bytes@.len(),
    {
        match wav_info(bytes) {
            Err(text) => {
                let mut message = "Failed to read WAV header: ".to_string();
                message.append(text.as_str());
                Err(message)
            },
            Ok(info) => if info.bits_per_sample < 8 {
                Err("Samples are smaller than a byte".to_string())
            } else {
                Ok(WavChunkReader::from_info(info, bytes.len() as u64))
            },
        }
    }

    pub fn spec(&self) -> (r: &WavInfo)
        ensures
            *r == self.header(),
    {
        &self.spec
    }

    pub fn sample_rate(&self) -> (r: u32)
        ensures
            r == self.header().sample_rate,
    {
        self.spec.sample_rate
    }

    pub fn channels(&self) -> (r: usize)
        ensures
            r == self.header().channels,
    {
        self.spec.channels as usize
    }

    pub fn total_mono_samples(&self) -> (r: usize)
        ensures
            r == self.mono_samples(),
    {
        self.total_mono_samples
    }

    /// Where in the file `num_samples` samples from `start_sample` on lie: the
    /// offset and the number of bytes, cut off at the end of the file.
    pub fn byte_range(&self, start_sample: usize, num_samples: usize) -> (r: (u64, usize))
        requires
            self.header().data_offset + start_sample * self.frame_bytes() <= u64::MAX,
            num_samples * self.frame_bytes() <= usize::MAX,
        ensures
            r.0 == self.header().data_offset + start_sample * self.frame_bytes(),
            ({
                let wanted = num_samples * self.frame_bytes();
                let left = self.data_bytes() - start_sample * self.frame_bytes();
                r.1 == if left < 0 {
                    0
                } else if left < wanted {
                    left
                } else {
                    wanted as int
                }
            }),
    {
        let sample: usize = (self.spec.bits_per_sample / 8) as usize;
        let channels: usize = self.spec.channels as usize;
        proof {
            assert(channels * sample <= 0xffff * 0x1fff) by (nonlinear_arith)
                requires
                    0 <= channels <= 0xffff,
                    0 <= sample <= 0x1fff,
            ;
        }
        let frame: usize = channels * sample;
        assert(frame == self.frame_bytes());
        proof {
            assert(start_sample * frame >= 0) by (nonlinear_arith);
            assert(num_samples * frame >= 0) by (nonlinear_arith);
        }
        let skipped: u64 = start_sample as u64 * frame as u64;
        let wanted: usize = num_samples * frame;
        let left: u64 = if skipped < self.data_len {
            self.data_len - skipped
        } else {
            0
        };
        let len: usize = if left < wanted as u64 {
            left as usize
        } else {
            wanted
        };
        (self.spec.data_offset + skipped, len)
    }

    /// The value of the integer sample in the bytes at `at`.
    pub open spec fn int_sample(raw: Seq<u8>, at: int, width: nat) -> int {
        if width == 1 {
            raw[at] - 128
        } else if width == 2 {
            signed(raw[at] + 0x100 * raw[at + 1], 0x1_0000)
        } else if width == 3 {
            signed(raw[at] + 0x100 * raw[at + 1] + 0x1_0000 * raw[at + 2], 0x100_0000)
        } else {
            signed(le_u32(raw, at) as int, 0x1_0000_0000)
        }
    }

    /// The upper sixteen bits of the integer sample in the bytes at `at`.
    pub open spec fn top_sample(raw: Seq<u8>, at: int, width: nat) -> int {
        if width == 1 {
            raw[at] - 128
        } else {
            signed(raw[at + width - 2] + 0x100 * raw[at + width - 1], 0x1_0000)
        }
    }

    /// How many whole frames of `frame` bytes there are.
    pub open spec fn frames_in(raw: Seq<u8>, frame: nat) -> nat {
        if frame == 0 {
            0
        } else {
            raw.len() / frame
        }
    }

    /// The fixed-point samples of the first channel in raw bytes from the file,
    /// or what is said where integer samples have more than four bytes.
    pub open spec fn fixed_samples(self, raw: Seq<u8>) -> Result<Seq<i64>, Seq<char>> {
        let n = Self::frames_in(raw, self.frame_bytes());
        if self.header().is_float {
            Ok(
                Seq::new(
                    Self::frames_in(raw, 4 * self.header().channels as nat),
                    |i: int| float_value(le_u32(raw, i * (4 * self.header().channels))),
                ),
            )
        } else if self.sample_bytes() > 4 && n > 0 {
            Err(unsupported_width(self.sample_bytes()))
        } else {
            Ok(
                Seq::new(
                    n,
                    |i: int|
                        int_value(
                            Self::int_sample(raw, i * self.frame_bytes(), self.sample_bytes()),
                            self.header().bits_per_sample,
                        ),
                ),
            )
        }
    }

    /// The upper sixteen bits of the samples of the first channel, or what is
    /// said where they are not integers of up to four bytes.
    pub open spec fn top_samples(self, raw: Seq<u8>) -> Result<Seq<i16>, Seq<char>> {
        let n = Self::frames_in(raw, self.frame_bytes());
        if self.header().is_float {
            Err("libltc chunk reader requires integer PCM"@)
        } else if self.sample_bytes() > 4 && n > 0 {
            Err(unsupported_width(self.sample_bytes()))
        } else {
            Ok(
                Seq::new(
                    n,
                    |i: int|
                        Self::top_sample(raw, i * self.frame_bytes(), self.sample_bytes()) as i16,
                ),
            )
        }
    }

    /// The fixed-point samples of the first channel in raw bytes from the file.
    ///
    /// Integer samples of more than four bytes are an error.
    pub fn read_mono_samples_f32(&self, raw: &[u8]) -> (r: Result<Vec<i64>, String>)
        requires
            self.header().channels > 0,
            self.header().bits_per_sample >= 8,
        ensures
            match r {
                Ok(v) => self.fixed_samples(raw@) == Ok::<Seq<i64>, Seq<char>>(v@),
                Err(e) => self.fixed_samples(raw@) == Err::<Seq<i64>, Seq<char>>(e@),
            },
    {
        let channels: usize = self.spec.channels as usize;
        let sample: usize = (self.spec.bits_per_sample / 8) as usize;
        let mut out: Vec<i64> = Vec::new();
        if self.spec.is_float {
            let frame: usize = 4 * channels;
            let count: usize = raw.len() / frame;
            let mut i: usize = 0;
            while i < count
                invariant
                    i <= count,
                    frame == 4 * channels,
                    channels > 0,
                    count == raw@.len() / frame as nat,
                    out@.len() == i,
                    forall|k: int|
                        0 <= k < i ==> #[trigger] out@[k] == float_value(le_u32(raw@, k * frame)),
                decreases count - i,
            {
                let len: usize = raw.len();
                proof {
                    lemma_frame_fits(i as int, frame as int, len as int);
                }
                out.push(float_to_fixed(read_le_u32(raw, i * frame)));
                i += 1;
            }
            assert(out@ =~= self.fixed_samples(raw@)->Ok_0);
            return Ok(out);
        }
        proof {
            assert(channels * sample <= 0xffff * 0x1fff) by (nonlinear_arith)
                requires
                    0 <= channels <= 0xffff,
                    0 <= sample <= 0x1fff,
            ;
            assert(channels * sample >= sample) by (nonlinear_arith)
                requires
                    channels >= 1,
                    sample >= 0,
            ;
        }
        let frame: usize = channels * sample;
        let count: usize = raw.len() / frame;
        if sample > 4 && count > 0 {
            return Err(unsupported_message(sample as u64));
        }
        let mut i: usize = 0;
        while i < count
            invariant
                i <= count,
                1 <= sample <= frame,
                sample <= 4 || count == 0,
                count == raw@.len() / frame as nat,
                out@.len() == i,
                forall|k: int|
                    0 <= k < i ==> #[trigger] out@[k] == int_value(
                        Self::int_sample(raw@, k * frame, sample as nat),
                        self.spec.bits_per_sample,
                    ),
            decreases count - i,
        {
            let len: usize = raw.len();
            proof {
                lemma_frame_fits(i as int, frame as int, len as int);
            }
            let value: i32 = read_int_sample(raw, i * frame, sample);
            out.push(int_to_fixed(value, self.spec.bits_per_sample));
            i += 1;
        }
        assert(out@ =~= self.fixed_samples(raw@)->Ok_0);
        Ok(out)
    }

    /// The upper sixteen bits of the samples of the first channel in raw bytes
    /// from the file.
    ///
    /// Only integer samples of up to four bytes are read.
    pub fn read_mono_samples_i16(&self, raw: &[u8]) -> (r: Result<Vec<i16>, String>)
        requires
            self.header().channels > 0,
            self.header().bits_per_sample >= 8,
        ensures
            match r {
                Ok(v) => self.top_samples(raw@) == Ok::<Seq<i16>, Seq<char>>(v@),
                Err(e) => self.top_samples(raw@) == Err::<Seq<i16>, Seq<char>>(e@),
            },
    {
        if self.spec.is_float {
            return Err("libltc chunk reader requires integer PCM".to_string());
        }
        let channels: usize = self.spec.channels as usize;
        let sample: usize = (self.spec.bits_per_sample / 8) as usize;
        let mut out: Vec<i16> = Vec::new();
        proof {
            assert(channels * sample <= 0xffff * 0x1fff) by (nonlinear_arith)
                requires
                    0 <= channels <= 0xffff,
                    0 <= sample <= 0x1fff,
            ;
            assert(channels * sample >= sample) by (nonlinear_arith)
                requires
                    channels >= 1,
                    sample >= 0,
            ;
        }
        let frame: usize = channels * sample;
        let count: usize = raw.len() / frame;
        if sample > 4 && count > 0 {
            return Err(unsupported_message(sample as u64));
        }
        let mut i: usize = 0;
        while i < count
            invariant
                i <= count,
                1 <= sample <= frame,
                sample <= 4 || count == 0,
                count == raw@.len() / frame as nat,
                out@.len() == i,
                forall|k: int|
                    0 <= k < i ==> #[trigger] out@[k] == Self::top_sample(
                        raw@,
                        k * frame,
                        sample as nat,
                    ) as i16,
            decreases count - i,
        {
            let len: usize = raw.len();
            proof {
                lemma_frame_fits(i as int, frame as int, len as int);
            }
            let at: usize = i * frame;
            let value: i16 = if sample == 1 {
                raw[at] as i16 - 128
            } else {
                read_int_sample(raw, at + sample - 2, 2) as i16
            };
            out.push(value);
            i += 1;
        }
        assert(out@ =~= self.top_samples(raw@)->Ok_0);
        Ok(out)
    }
}

/// What is said of samples that are too wide.
pub open spec fn unsupported_width(width: nat) -> Seq<char> {
    "Unsupported bytes per sample: "@ + decimal(width)
}

fn unsupported_message(width: u64) -> (r: String)
    ensures
        r@ == unsupported_width(width as nat),
{
    let mut message = "Unsupported bytes per sample: ".to_string();
    push_decimal(&mut message, width);
    message
}

/// The number below `modulus / 2` and above its negative with the same remainder.
pub open spec fn signed(v: int, modulus: int) -> int {
    if v >= modulus / 2 {
        v - modulus
    } else {
        v
    }
}

fn read_int_sample(raw: &[u8], at: usize, width: usize) -> (r: i32)
    requires
        1 <= width <= 4,
        at + width <= raw@.len(),
    ensures
        r == WavChunkReader::int_sample(raw@, at as int, width as nat),
{
    let len: usize = raw.len();
    assert(at + width <= len);
    if width == 1 {
        raw[at] as i32 - 128
    } else if width == 2 {
        let v: i32 = raw[at] as i32 + 0x100 * raw[at + 1] as i32;
        if v >= 0x8000 {
            v - 0x1_0000
        } else {
            v
        }
    } else if width == 3 {
        let v: i32 = raw[at] as i32 + 0x100 * raw[at + 1] as i32 + 0x1_0000 * raw[at + 2] as i32;
        if v >= 0x80_0000 {
            v - 0x100_0000
        } else {
            v
        }
    } else {
        let v: i64 = read_le_u32(raw, at) as i64;
        (if v >= 0x8000_0000 {
            v - 0x1_0000_0000
        } else {
            v
        }) as i32
    }
}

proof fn lemma_frame_fits(i: int, frame: int, len: int)
    requires
        frame > 0,
        0 <= i < len / frame,
    ensures
        0 <= i * frame,
        i * frame + frame <= len,
{
    vstd::arithmetic::div_mod::lemma_fundamental_div_mod(len, frame);
    let q = len / frame;
    assert(i * frame + frame <= frame * q) by (nonlinear_arith)
        requires
            i + 1 <= q,
            frame > 0,
    ;
    assert(i * frame >= 0) by (nonlinear_arith)
        requires
            i >= 0,
            frame > 0,
    ;
}

// ── Merging ────────────────────────────────────────────────────────────────

/// A number of nanoseconds, or the end of the clock that it lies beyond.
pub open spec fn on_clock(nanos: int) -> i64 {
    if nanos > i64::MAX {
        i64::MAX
    } else if nanos < i64::MIN {
        i64::MIN
    } else {
        nanos as i64
    }
}

fn hold_to_clock(nanos: i128) -> (r: i64)
    ensures
        r == on_clock(nanos as int),
{
    if nanos > i64::MAX as i128 {
        i64::MAX
    } else if nanos < i64::MIN as i128 {
        i64::MIN
    } else {
        nanos as i64
    }
}

/// `a + b`, or the end of the clock.
pub open spec fn later(a: i64, b: i64) -> i64 {
    on_clock(a + b)
}

fn add_nanos(a: i64, b: i64) -> (r: i64)
    ensures
        r == later(a, b),
{
    hold_to_clock(a as i128 + b as i128)
}

/// The time of a sample in nanoseconds, rounded down; a sample may come before the
/// start.
pub open spec fn sample_nanos(sample: int, sample_rate: u32) -> i64 {
    on_clock((sample * 1_000_000_000) / (sample_rate as int))
}

pub(crate) fn sample_time(sample: i128, sample_rate: u32) -> (r: i64)
    requires
        sample_rate > 0,
        -0x8000_0000_0000_0000 <= sample <= 0xffff_ffff_ffff_ffff,
    ensures
        r == sample_nanos(sample as int, sample_rate),
{
    let scaled: i128 = sample * 1_000_000_000;
    let rate: i128 = sample_rate as i128;
    if scaled >= 0 {
        hold_to_clock(scaled / rate)
    } else {
        let size: i128 = (-scaled - 1) / rate;
        proof {
            lemma_floor_below(scaled as int, rate as int);
        }
        hold_to_clock(-size - 1)
    }
}

/// A negative quotient, rounded down, from one of positive numbers.
proof fn lemma_floor_below(x: int, d: int)
    requires
        x < 0,
        d > 0,
    ensures
        x / d == -((-x - 1) / d) - 1,
        0 <= (-x - 1) / d <= -x - 1,
{
    let q = (-x - 1) / d;
    let r = (-x - 1) % d;
    vstd::arithmetic::div_mod::lemma_fundamental_div_mod(-x - 1, d);
    assert(x == (-q - 1) * d + (d - 1 - r)) by (nonlinear_arith)
        requires
            -x - 1 == d * q + r,
    ;
    vstd::arithmetic::div_mod::lemma_fundamental_div_mod_converse(x, d, -q - 1, d - 1 - r);
    assert(0 <= q <= -x - 1) by (nonlinear_arith)
        requires
            q == (-x - 1) / d,
            d > 0,
            x < 0,
    ;
}

/// What became of a chunk.
pub type ChunkOutcome = Result<LtcDetectionResult, String>;

/// The time at which chunk `i` begins.
pub open spec fn chunk_start(chunks: Seq<(usize, usize)>, i: int, sample_rate: u32) -> i64 {
    sample_nanos(
        if i < chunks.len() {
            chunks[i].0 as int
        } else {
            0
        },
        sample_rate,
    )
}

/// Frames moved later by `offset`.
pub open spec fn delayed(tcs: Seq<FrameTimecode>, offset: i64) -> Seq<FrameTimecode> {
    tcs.map_values(
        |f: FrameTimecode|
            FrameTimecode { timecode_nanos: later(f.timecode_nanos, offset), ..f },
    )
}

/// The frames of the first `n` chunks, at their times in the whole recording.
pub open spec fn all_frames(outcomes: Seq<ChunkOutcome>, chunks: Seq<(usize, usize)>, sample_rate: u32, n: int) -> Seq<FrameTimecode>
    decreases n,
{
    if n <= 0 {
        seq![]
    } else {
        let before = all_frames(outcomes, chunks, sample_rate, n - 1);
        match outcomes[n - 1] {
            Ok(r) => before + delayed(r.timecodes@, chunk_start(chunks, n - 1, sample_rate)),
            Err(_) => before,
        }
    }
}

/// `x` put behind everything that is not later.
pub open spec fn insert_by_time(s: Seq<FrameTimecode>, x: FrameTimecode) -> Seq<FrameTimecode>
    decreases s.len(),
{
    if s.len() == 0 || s.last().timecode_nanos <= x.timecode_nanos {
        s.push(x)
    } else {
        insert_by_time(s.drop_last(), x).push(s.last())
    }
}

/// The first `n` frames in order of time; frames of one time keep their order.
pub open spec fn sorted_by_time(s: Seq<FrameTimecode>, n: int) -> Seq<FrameTimecode>
    decreases n,
{
    if n <= 0 {
        seq![]
    } else {
        insert_by_time(sorted_by_time(s, n - 1), s[n - 1])
    }
}

/// Frames follow one another in time.
pub open spec fn in_time_order(s: Seq<FrameTimecode>) -> bool {
    forall|i: int, j: int| 0 <= i <= j < s.len() ==> s[i].timecode_nanos <= s[j].timecode_nanos
}

/// A frame at `t` is another one than the frame at `last`: more than half a
/// frame, or more than half the overlap, later. The first frame counts if it is
/// behind the very start.
pub open spec fn is_new_frame(t: i64, last: Option<i64>, fps: FrameRate, config: DecodeConfig) -> bool {
    match last {
        None => t > 0,
        Some(l) => {
            ||| 2 * (t - l) * fps.num > 1_000_000_000 * fps.den
            ||| 2 * (t - l) > config.overlap_nanos
        },
    }
}

/// The first `n` frames without those that repeat the last one kept.
pub open spec fn without_repeats(s: Seq<FrameTimecode>, fps: FrameRate, config: DecodeConfig, n: int) -> Seq<FrameTimecode>
    decreases n,
{
    if n <= 0 {
        seq![]
    } else {
        let before = without_repeats(s, fps, config, n - 1);
        let last = if before.len() == 0 {
            None
        } else {
            Some(before.last().timecode_nanos)
        };
        if is_new_frame(s[n - 1].timecode_nanos, last, fps, config) {
            before.push(s[n - 1])
        } else {
            before
        }
    }
}

/// The earliest first timecode of the first `n` chunks.
pub open spec fn earliest_first(outcomes: Seq<ChunkOutcome>, chunks: Seq<(usize, usize)>, sample_rate: u32, n: int) -> Option<i64>
    decreases n,
{
    if n <= 0 {
        None
    } else {
        let before = earliest_first(outcomes, chunks, sample_rate, n - 1);
        match outcomes[n - 1] {
            Ok(r) if r.first_ltc_nanos > 0 => {
                let t = later(r.first_ltc_nanos, chunk_start(chunks, n - 1, sample_rate));
                match before {
                    Some(b) if b <= t => before,
                    _ => Some(t),
                }
            },
            _ => before,
        }
    }
}

/// One line for each of the first `n` chunks.
pub open spec fn chunk_lines(outcomes: Seq<ChunkOutcome>, n: int) -> Seq<Detail>
    decreases n,
{
    if n <= 0 {
        seq![]
    } else {
        chunk_lines(outcomes, n - 1).push(
            match outcomes[n - 1] {
                Ok(r) => Detail::Chunk {
                    index: (n - 1) as usize,
                    valid: r.valid_frames,
                    possible: r.total_possible_frames,
                    confidence: r.avg_confidence,
                },
                Err(e) => Detail::ChunkFailed { index: (n - 1) as usize, message: e },
            },
        )
    }
}

/// How many frames a recording has room for, rounded to the nearest, halves up. One
/// with samples and without a sample rate has room for as many as can be counted.
pub open spec fn frames_of(total: usize, sample_rate: u32, fps: FrameRate) -> u32 {
    let unit = sample_rate * fps.den;
    let n = (2 * (total * fps.num) + unit) / (2 * unit);
    if sample_rate == 0 {
        if total > 0 && fps.num > 0 {
            u32::MAX
        } else {
            0
        }
    } else if n > u32::MAX {
        u32::MAX
    } else {
        n as u32
    }
}

/// The report on a recording that was decoded in chunks, with all its frames.
pub open spec fn merged_report(
    outcomes: Seq<ChunkOutcome>,
    chunks: Seq<(usize, usize)>,
    total: usize,
    sample_rate: u32,
    fps: FrameRate,
    drop_frame: bool,
    config: DecodeConfig,
) -> Report {
    let frames = all_frames(outcomes, chunks, sample_rate, outcomes.len() as int);
    let sorted = sorted_by_time(frames, frames.len() as int);
    let kept = reindexed(without_repeats(sorted, fps, config, sorted.len() as int));
    let valid = kept.len() as u32;
    let possible = frames_of(total, sample_rate, fps);
    Report {
        status: status_for(valid, possible),
        detected_fps: fps,
        drop_frame,
        total_possible_frames: possible,
        valid_frames: valid,
        timecodes: kept,
        avg_confidence: if possible > 0 {
            Share { num: valid as u64, den: possible as u64 }
        } else {
            no_share()
        },
        details: chunk_lines(outcomes, outcomes.len() as int).push(
            Detail::Merged { chunks: chunks.len() as usize, valid, possible },
        ),
        total_samples: total,
        sample_rate,
        first_ltc_nanos: match earliest_first(
            outcomes,
            chunks,
            sample_rate,
            outcomes.len() as int,
        ) {
            Some(t) => t,
            None => 0,
        },
    }
}

proof fn lemma_insert_position(s: Seq<FrameTimecode>, x: FrameTimecode, i: int)
    requires
        0 <= i <= s.len(),
        i > 0 ==> s[i - 1].timecode_nanos <= x.timecode_nanos,
        forall|k: int| i <= k < s.len() ==> (#[trigger] s[k]).timecode_nanos > x.timecode_nanos,
    ensures
        insert_by_time(s, x) == s.insert(i, x),
    decreases s.len(),
{
    if i == s.len() {
        assert(s.insert(i, x) =~= s.push(x));
    } else {
        assert(s[s.len() - 1].timecode_nanos > x.timecode_nanos);
        let rest = s.drop_last();
        assert forall|k: int| i <= k < rest.len() implies (#[trigger] rest[k]).timecode_nanos
            > x.timecode_nanos by {
            assert(rest[k] == s[k]);
        }
        lemma_insert_position(rest, x, i);
        assert(rest.insert(i, x).push(s.last()) =~= s.insert(i, x));
    }
}

fn sort_frames(frames: &Vec<FrameTimecode>) -> (r: Vec<FrameTimecode>)
    ensures
        r@ == sorted_by_time(frames@, frames@.len() as int),
        in_time_order(r@),
{
    let mut sorted: Vec<FrameTimecode> = Vec::new();
    let mut n: usize = 0;
    while n < frames.len()
        invariant
            n <= frames@.len(),
            sorted@ == sorted_by_time(frames@, n as int),
            in_time_order(sorted@),
        decreases frames@.len() - n,
    {
        let x = frames[n];
        let mut i: usize = sorted.len();
        while i > 0 && sorted[i - 1].timecode_nanos > x.timecode_nanos
            invariant
                i <= sorted@.len(),
                in_time_order(sorted@),
                forall|k: int|
                    i <= k < sorted@.len() ==> (#[trigger] sorted@[k]).timecode_nanos
                        > x.timecode_nanos,
            decreases i,
        {
            i -= 1;
        }
        proof {
            lemma_insert_position(sorted@, x, i as int);
        }
        sorted.insert(i, x);
        n += 1;
    }
    sorted
}

fn differs(t: i64, last: Option<i64>, fps: FrameRate, config: &DecodeConfig) -> (r: bool)
    requires
        last matches Some(l) ==> l <= t,
    ensures
        r == is_new_frame(t, last, fps, *config),
{
    match last {
        None => t > 0,
        Some(l) => {
            let dt: u128 = (t as i128 - l as i128) as u128;
            proof {
                assert(0 <= dt * fps.num <= 0xffff_ffff_ffff_ffff * 0xffff_ffff) by (nonlinear_arith)
                    requires
                        0 <= dt <= 0xffff_ffff_ffff_ffff,
                        0 <= fps.num <= 0xffff_ffff,
                ;
                assert(2 * (t - l) * fps.num == 2 * (dt * fps.num)) by (nonlinear_arith)
                    requires
                        dt == t - l,
                ;
            }
            2 * (dt * fps.num as u128) > 1_000_000_000u128 * fps.den as u128 || 2 * dt
                > config.overlap_nanos as u128
        },
    }
}

fn drop_repeats(sorted: &Vec<FrameTimecode>, fps: FrameRate, config: &DecodeConfig) -> (r: Vec<
    FrameTimecode,
>)
    requires
        in_time_order(sorted@),
    ensures
        r@ == reindexed(without_repeats(sorted@, fps, *config, sorted@.len() as int)),
{
    let mut kept: Vec<FrameTimecode> = Vec::new();
    let mut last: Option<i64> = None;
    let mut n: usize = 0;
    let ghost mut plain: Seq<FrameTimecode> = seq![];
    while n < sorted.len()
        invariant
            n <= sorted@.len(),
            in_time_order(sorted@),
            plain == without_repeats(sorted@, fps, *config, n as int),
            kept@ == reindexed(plain),
            last == if plain.len() == 0 {
                None
            } else {
                Some(plain.last().timecode_nanos)
            },
            last matches Some(l) ==> n > 0 && l <= sorted@[n - 1].timecode_nanos,
        decreases sorted@.len() - n,
    {
        let f = sorted[n];
        if differs(f.timecode_nanos, last, fps, config) {
            let index: u32 = kept.len() as u32;
            kept.push(
                FrameTimecode {
                    frame_index: index,
                    timecode: f.timecode,
                    timecode_nanos: f.timecode_nanos,
                },
            );
            last = Some(f.timecode_nanos);
            proof {
                plain = plain.push(f);
                assert(kept@ =~= reindexed(plain));
            }
        }
        n += 1;
    }
    kept
}

pub(crate) fn count_frames(total: usize, sample_rate: u32, fps: FrameRate) -> (r: u32)
    requires
        fps.den > 0,
    ensures
        r == frames_of(total, sample_rate, fps),
{
    if sample_rate == 0 {
        return if total > 0 && fps.num > 0 {
            u32::MAX
        } else {
            0
        };
    }
    proof {
        assert(1 <= sample_rate * fps.den <= 0xffff_ffff * 0xffff_ffff) by (nonlinear_arith)
            requires
                1 <= sample_rate <= 0xffff_ffff,
                1 <= fps.den <= 0xffff_ffff,
        ;
        assert(0 <= total * fps.num <= 0xffff_ffff_ffff_ffff * 0xffff_ffff) by (nonlinear_arith)
            requires
                0 <= total <= 0xffff_ffff_ffff_ffff,
                0 <= fps.num <= 0xffff_ffff,
        ;
    }
    let unit: u128 = sample_rate as u128 * fps.den as u128;
    let n: u128 = (2 * (total as u128 * fps.num as u128) + unit) / (2 * unit);
    if n > u32::MAX as u128 {
        u32::MAX
    } else {
        n as u32
    }
}

/// A chunk in which no frame was found.
pub open spec fn is_frameless(outcome: ChunkOutcome) -> bool {
    outcome matches Ok(r) ==> r.timecodes@.len() == 0 && r.first_ltc_nanos == 0
}

/// Merges what was decoded from the chunks of a recording.
///
/// Frames are moved to their times in the whole recording and put in order; a
/// frame that two chunks have in common is kept once.
pub fn merge_chunks(
    outcomes: &Vec<ChunkOutcome>,
    chunks: &Vec<(usize, usize)>,
    total: usize,
    sample_rate: u32,
    fps: FrameRate,
    drop_frame: bool,
    config: &DecodeConfig,
) -> (r: LtcDetectionResult)
    requires
        sample_rate > 0 || forall|i: int|
            0 <= i < outcomes@.len() ==> is_frameless(#[trigger] outcomes@[i]),
        fps.den > 0,
    ensures
        r@ == coherent_report(
            merged_report(outcomes@, chunks@, total, sample_rate, fps, drop_frame, *config),
        ),
{
    let mut frames: Vec<FrameTimecode> = Vec::new();
    let mut details: Vec<Detail> = Vec::new();
    let mut first: Option<i64> = None;
    let mut i: usize = 0;
    while i < outcomes.len()
        invariant
            i <= outcomes@.len(),
            sample_rate > 0 || forall|k: int|
                0 <= k < outcomes@.len() ==> is_frameless(#[trigger] outcomes@[k]),
            frames@ == all_frames(outcomes@, chunks@, sample_rate, i as int),
            details@ == chunk_lines(outcomes@, i as int),
            first == earliest_first(outcomes@, chunks@, sample_rate, i as int),
        decreases outcomes@.len() - i,
    {
        let start: i64 = if sample_rate == 0 {
            0
        } else if i < chunks.len() {
            sample_time(chunks[i].0 as i128, sample_rate)
        } else {
            sample_time(0, sample_rate)
        };
        assert(sample_rate == 0 ==> is_frameless(outcomes@[i as int]));
        match &outcomes[i] {
            Ok(r) => {
                details.push(
                    Detail::Chunk {
                        index: i,
                        valid: r.valid_frames,
                        possible: r.total_possible_frames,
                        confidence: r.avg_confidence,
                    },
                );
                if r.first_ltc_nanos > 0 {
                    let t: i64 = add_nanos(r.first_ltc_nanos, start);
                    let keep: bool = match first {
                        Some(b) => b <= t,
                        None => false,
                    };
                    if !keep {
                        first = Some(t);
                    }
                }
                let ghost before = frames@;
                let mut k: usize = 0;
                while k < r.timecodes.len()
                    invariant
                        k <= r.timecodes@.len(),
                        frames@ == before + delayed(r.timecodes@, start).take(k as int),
                    decreases r.timecodes@.len() - k,
                {
                    let f = r.timecodes[k];
                    frames.push(
                        FrameTimecode {
                            frame_index: f.frame_index,
                            timecode: f.timecode,
                            timecode_nanos: add_nanos(f.timecode_nanos, start),
                        },
                    );
                    k += 1;
                    assert(frames@ =~= before + delayed(r.timecodes@, start).take(k as int));
                }
                assert(delayed(r.timecodes@, start).take(k as int) =~= delayed(
                    r.timecodes@,
                    chunk_start(chunks@, i as int, sample_rate),
                ));
            },
            Err(e) => {
                details.push(Detail::ChunkFailed { index: i, message: e.clone() });
            },
        }
        i += 1;
    }
    let sorted = sort_frames(&frames);
    let kept = drop_repeats(&sorted, fps, config);
    let valid: u32 = kept.len() as u32;
    let possible: u32 = count_frames(total, sample_rate, fps);
    details.push(Detail::Merged { chunks: chunks.len(), valid, possible });
    let mut result = LtcDetectionResult {
        status: crate::ltc_decoder::decide_status(valid, possible),
        detected_fps: fps,
        drop_frame,
        total_possible_frames: possible,
        valid_frames: valid,
        timecodes: kept,
        avg_confidence: if possible > 0 {
            Share { num: valid as u64, den: possible as u64 }
        } else {
            Share { num: 0, den: 1 }
        },
        details,
        total_samples: total,
        sample_rate,
        first_ltc_nanos: match first {
            Some(t) => t,
            None => 0,
        },
    };
    assert(result@ =~= merged_report(
        outcomes@,
        chunks@,
        total,
        sample_rate,
        fps,
        drop_frame,
        *config,
    ));
    apply_coherent_first_timecode(&mut result);
    result
}

proof fn lemma_insert_keeps(s: Seq<FrameTimecode>, x: FrameTimecode)
    requires
        in_time_order(s),
    ensures
        in_time_order(insert_by_time(s, x)),
        insert_by_time(s, x).to_multiset() == s.to_multiset().insert(x),
        insert_by_time(s, x).len() == s.len() + 1,
        forall|i: int|
            0 <= i < s.len() + 1 ==> (#[trigger] insert_by_time(s, x)[i]).timecode_nanos
                <= x.timecode_nanos || exists|j: int|
                0 <= j < s.len() && insert_by_time(s, x)[i] == #[trigger] s[j],
    decreases s.len(),
{
    broadcast use vstd::seq_lib::group_to_multiset_ensures;

    if s.len() > 0 && s.last().timecode_nanos > x.timecode_nanos {
        let rest = s.drop_last();
        lemma_insert_keeps(rest, x);
        let inner = insert_by_time(rest, x);
        let full = inner.push(s.last());
        assert(s =~= rest.push(s.last()));
        assert(full.to_multiset() =~= s.to_multiset().insert(x));
        assert forall|i: int| 0 <= i < inner.len() implies (#[trigger] inner[i]).timecode_nanos
            <= s.last().timecode_nanos by {
            if inner[i].timecode_nanos > x.timecode_nanos {
                let j = choose|j: int| 0 <= j < rest.len() && inner[i] == #[trigger] rest[j];
                assert(rest[j] == s[j]);
            }
        }
        assert forall|i: int| 0 <= i < s.len() + 1 implies (#[trigger] full[i]).timecode_nanos
            <= x.timecode_nanos || exists|j: int| 0 <= j < s.len() && full[i] == #[trigger] s[j] by {
            if i < inner.len() {
                assert(full[i] == inner[i]);
                if inner[i].timecode_nanos > x.timecode_nanos {
                    let j = choose|j: int| 0 <= j < rest.len() && inner[i] == #[trigger] rest[j];
                    assert(full[i] == s[j]);
                }
            } else {
                assert(full[i] == s[s.len() - 1]);
            }
        }
    }
}

/// Putting frames in order of time loses none and adds none.
pub proof fn law_sorting_keeps_frames(s: Seq<FrameTimecode>, n: int)
    requires
        0 <= n <= s.len(),
    ensures
        in_time_order(sorted_by_time(s, n)),
        sorted_by_time(s, n).to_multiset() == s.take(n).to_multiset(),
    decreases n,
{
    broadcast use vstd::seq_lib::group_to_multiset_ensures;

    if n > 0 {
        law_sorting_keeps_frames(s, n - 1);
        lemma_insert_keeps(sorted_by_time(s, n - 1), s[n - 1]);
        assert(s.take(n) =~= s.take(n - 1).push(s[n - 1]));
    } else {
        assert(s.take(0) =~= Seq::<FrameTimecode>::empty());
    }
}

/// Of the frames that are kept, each is another one than the one before it, and
/// later.
pub proof fn law_kept_frames_differ(s: Seq<FrameTimecode>, fps: FrameRate, config: DecodeConfig, n: int)
    requires
        0 <= n <= s.len(),
        in_time_order(s),
    ensures
        ({
            let kept = without_repeats(s, fps, config, n);
            &&& kept.len() <= n
            &&& forall|k: int|
                0 < k < kept.len() ==> is_new_frame(
                    (#[trigger] kept[k]).timecode_nanos,
                    Some(kept[k - 1].timecode_nanos),
                    fps,
                    config,
                ) && kept[k - 1].timecode_nanos < kept[k].timecode_nanos
            &&& kept.len() > 0 ==> n > 0 && kept.last().timecode_nanos <= s[n - 1].timecode_nanos
        }),
    decreases n,
{
    if n > 0 {
        law_kept_frames_differ(s, fps, config, n - 1);
        let before = without_repeats(s, fps, config, n - 1);
        if before.len() > 0 {
            let t = s[n - 1].timecode_nanos;
            let l = before.last().timecode_nanos;
            assert(l <= t);
            if is_new_frame(t, Some(l), fps, config) {
                assert(l < t) by {
                    if l == t {
                        assert(2 * (t - l) * fps.num == 0) by (nonlinear_arith)
                            requires
                                t - l == 0,
                        ;
                    }
                }
            }
        }
    }
}

/// The start of a chunk in nanoseconds is its first sample's time, rounded down.
proof fn lemma_chunk_start(chunks: Seq<(usize, usize)>, k: int, sample_rate: u32)
    requires
        sample_rate > 0,
        0 <= k < chunks.len(),
    ensures
        ({
            let start = chunk_start(chunks, k, sample_rate);
            &&& 0 <= start
            &&& start * sample_rate <= chunks[k].0 * 1_000_000_000
            &&& start < i64::MAX ==> chunks[k].0 * 1_000_000_000 < start * sample_rate + sample_rate
        }),
{
    let x = chunks[k].0 * 1_000_000_000;
    let rate = sample_rate as int;
    let q = x / rate;
    vstd::arithmetic::div_mod::lemma_fundamental_div_mod(x, rate);
    vstd::arithmetic::div_mod::lemma_mod_bound(x, rate);
    assert(q >= 0) by (nonlinear_arith)
        requires
            q == x / rate,
            x >= 0,
            rate > 0,
    ;
    let start = chunk_start(chunks, k, sample_rate) as int;
    assert(rate * q == q * rate) by (nonlinear_arith);
    assert(start * rate <= q * rate) by (nonlinear_arith)
        requires
            start <= q,
            rate > 0,
    ;
}

/// A time counted from the start of a chunk is one in the whole recording, to within
/// the nanosecond that the start is rounded down by, unless the clock ends before.
proof fn lemma_moved_time(chunks: Seq<(usize, usize)>, k: int, sample_rate: u32, t: i64)
    requires
        sample_rate > 0,
        0 <= k < chunks.len(),
    ensures
        ({
            let moved = later(t, chunk_start(chunks, k, sample_rate));
            let exact = chunks[k].0 * 1_000_000_000 + t * sample_rate;
            &&& moved * sample_rate <= exact
            &&& moved >= t
            &&& 0 < t && moved < i64::MAX ==> exact < moved * sample_rate + sample_rate
            &&& moved < i64::MAX && chunk_start(chunks, k, sample_rate) < i64::MAX ==> exact < moved
                * sample_rate + sample_rate
        }),
{
    lemma_chunk_start(chunks, k, sample_rate);
    let start = chunk_start(chunks, k, sample_rate) as int;
    let rate = sample_rate as int;
    let moved = later(t, chunk_start(chunks, k, sample_rate)) as int;
    let sum = t + start;
    assert(sum * rate == t * rate + start * rate) by (nonlinear_arith)
        requires
            sum == t + start,
    ;
    assert(moved * rate <= sum * rate) by (nonlinear_arith)
        requires
            moved <= sum,
            rate > 0,
    ;
}

/// The time in the whole recording of the first timecode of chunk `k`, in samples
/// times nanoseconds: where the chunk starts, and the time within the chunk.
pub open spec fn first_in_recording(outcomes: Seq<ChunkOutcome>, chunks: Seq<(usize, usize)>, sample_rate: u32, k: int) -> int {
    chunks[k].0 * 1_000_000_000 + outcomes[k]->Ok_0.first_ltc_nanos * sample_rate
}

/// A chunk with a first timecode behind its start.
pub open spec fn tells_first(outcome: ChunkOutcome) -> bool {
    outcome is Ok && outcome->Ok_0.first_ltc_nanos > 0
}

proof fn lemma_earliest(outcomes: Seq<ChunkOutcome>, chunks: Seq<(usize, usize)>, sample_rate: u32, n: int)
    requires
        sample_rate > 0,
        0 <= n <= outcomes.len() <= chunks.len(),
    ensures
        match earliest_first(outcomes, chunks, sample_rate, n) {
            None => forall|k: int| 0 <= k < n ==> !tells_first(#[trigger] outcomes[k]),
            Some(first) => {
                &&& first > 0
                &&& forall|k: int|
                    0 <= k < n && tells_first(#[trigger] outcomes[k]) ==> first * sample_rate
                        <= first_in_recording(outcomes, chunks, sample_rate, k)
                &&& first < i64::MAX ==> exists|k: int|
                    0 <= k < n && tells_first(#[trigger] outcomes[k]) && first_in_recording(
                        outcomes,
                        chunks,
                        sample_rate,
                        k,
                    ) < first * sample_rate + sample_rate
            },
        },
    decreases n,
{
    if n > 0 {
        lemma_earliest(outcomes, chunks, sample_rate, n - 1);
        let before = earliest_first(outcomes, chunks, sample_rate, n - 1);
        let now = earliest_first(outcomes, chunks, sample_rate, n);
        if tells_first(outcomes[n - 1]) {
            let own = outcomes[n - 1]->Ok_0.first_ltc_nanos;
            lemma_moved_time(chunks, n - 1, sample_rate, own);
            let t = later(own, chunk_start(chunks, n - 1, sample_rate));
            let rate = sample_rate as int;
            let chosen = now->0 as int;
            assert(chosen * rate <= t * rate) by (nonlinear_arith)
                requires
                    chosen <= t,
                    rate > 0,
            ;
            if let Some(b) = before {
                assert(chosen * rate <= b * rate) by (nonlinear_arith)
                    requires
                        chosen <= b,
                        rate > 0,
                ;
            }
            assert(outcomes[n - 1] == outcomes[n - 1]);
            assert(now == before || now == Some(t));
        } else {
            assert(now == before);
        }
    }
}

/// The merged report tells where the timecode starts in the whole recording: at the
/// earliest first timecode of the chunks, each counted from the start of its chunk.
/// Where frames before it were no coherent timecode, at the first frame that is kept.
pub proof fn law_first_timecode_in_recording(
    outcomes: Seq<ChunkOutcome>,
    chunks: Seq<(usize, usize)>,
    total: usize,
    sample_rate: u32,
    fps: FrameRate,
    drop_frame: bool,
    config: DecodeConfig,
    got: Report,
)
    requires
        sample_rate > 0,
        outcomes.len() <= chunks.len(),
        got == coherent_report(
            merged_report(outcomes, chunks, total, sample_rate, fps, drop_frame, config),
        ),
    ensures
        got.details.len() == outcomes.len() + 1 || got.details.len() == outcomes.len() + 2,
        got.details.len() == outcomes.len() + 2 ==> got.timecodes.len() > 0 && got.first_ltc_nanos
            == got.timecodes[0].timecode_nanos,
        got.details.len() == outcomes.len() + 1 ==> {
            let first = got.first_ltc_nanos;
            &&& forall|k: int|
                0 <= k < outcomes.len() && tells_first(#[trigger] outcomes[k]) ==> 0 < first && first
                    * sample_rate <= chunks[k].0 * 1_000_000_000
                    + outcomes[k]->Ok_0.first_ltc_nanos * sample_rate
            &&& 0 < first < i64::MAX ==> exists|k: int|
                0 <= k < outcomes.len() && tells_first(#[trigger] outcomes[k]) && first
                    * sample_rate + sample_rate > chunks[k].0 * 1_000_000_000
                    + outcomes[k]->Ok_0.first_ltc_nanos * sample_rate
            &&& (forall|k: int| 0 <= k < outcomes.len() ==> !tells_first(#[trigger] outcomes[k]))
                ==> first == 0
        },
{
    let merged = merged_report(outcomes, chunks, total, sample_rate, fps, drop_frame, config);
    lemma_chunk_lines(outcomes, outcomes.len() as int);
    let n = outcomes.len() as int;
    lemma_earliest(outcomes, chunks, sample_rate, n);
    lemma_coherent_trim(merged);
    if got.details.len() == outcomes.len() + 1 {
        let first = got.first_ltc_nanos;
        let earliest = earliest_first(outcomes, chunks, sample_rate, n);
        assert forall|k: int| 0 <= k < n && tells_first(#[trigger] outcomes[k]) implies 0 < first
            && first * sample_rate <= chunks[k].0 * 1_000_000_000
            + outcomes[k]->Ok_0.first_ltc_nanos * sample_rate by {
            assert(earliest is Some);
            assert(first * sample_rate <= first_in_recording(outcomes, chunks, sample_rate, k));
        }
        if 0 < first < i64::MAX {
            assert(earliest == Some(first));
            let k = choose|k: int|
                0 <= k < n && tells_first(#[trigger] outcomes[k]) && first_in_recording(
                    outcomes,
                    chunks,
                    sample_rate,
                    k,
                ) < first * sample_rate + sample_rate;
            assert(tells_first(outcomes[k]));
        }
        if forall|k: int| 0 <= k < n ==> !tells_first(#[trigger] outcomes[k]) {
            if let Some(f) = earliest {
                if f == i64::MAX {
                    lemma_earliest_told(outcomes, chunks, sample_rate, n);
                }
            }
        }
    }
}

/// Without a chunk that tells a first timecode there is no earliest.
proof fn lemma_earliest_told(outcomes: Seq<ChunkOutcome>, chunks: Seq<(usize, usize)>, sample_rate: u32, n: int)
    requires
        0 <= n <= outcomes.len(),
        forall|k: int| 0 <= k < n ==> !tells_first(#[trigger] outcomes[k]),
    ensures
        earliest_first(outcomes, chunks, sample_rate, n) is None,
    decreases n,
{
    if n > 0 {
        lemma_earliest_told(outcomes, chunks, sample_rate, n - 1);
        assert(!tells_first(outcomes[n - 1]));
    }
}

proof fn lemma_chunk_lines(outcomes: Seq<ChunkOutcome>, n: int)
    requires
        0 <= n,
    ensures
        chunk_lines(outcomes, n).len() == n,
    decreases n,
{
    if n > 0 {
        lemma_chunk_lines(outcomes, n - 1);
    }
}

/// Whether frames were trimmed shows in the number of lines.
proof fn lemma_coherent_trim(r: Report)
    ensures
        ({
            let got = coherent_report(r);
            ||| got == r
            ||| got.details.len() == r.details.len() + 1 && exists|i: int|
                {
                    &&& 0 < i < r.timecodes.len()
                    &&& got.timecodes.len() == r.timecodes.len() - i
                    &&& got.first_ltc_nanos == r.timecodes[i].timecode_nanos
                    &&& got.timecodes[0].timecode_nanos == r.timecodes[i].timecode_nanos
                    &&& got.timecodes == #[trigger] crate::ltc_decoder::reindexed(r.timecodes.skip(i))
                }
        }),
{
    let got = coherent_report(r);
    if got != r {
        let i = choose|i: int|
            #[trigger] crate::ltc_decoder::is_coherent_start(
                r.timecodes,
                r.detected_fps,
                r.drop_frame,
                i,
            ) && i > 0;
        assert(crate::ltc_decoder::coherent_run(
            r.timecodes,
            i,
            crate::ltc_decoder::run_length(r.detected_fps),
            r.detected_fps,
            r.drop_frame,
        ));
        assert(got.timecodes == crate::ltc_decoder::reindexed(r.timecodes.skip(i)));
    }
}

/// A frame of the whole recording is frame `i` of chunk `k`: it has its timecode, and
/// its time counted from the start of the chunk.
pub open spec fn stands_for(
    frame: FrameTimecode,
    outcomes: Seq<ChunkOutcome>,
    chunks: Seq<(usize, usize)>,
    sample_rate: u32,
    k: int,
    i: int,
) -> bool {
    &&& 0 <= k < outcomes.len()
    &&& outcomes[k] is Ok
    &&& 0 <= i < outcomes[k]->Ok_0.timecodes@.len()
    &&& frame.timecode == outcomes[k]->Ok_0.timecodes@[i].timecode
    &&& ({
        let exact = chunks[k].0 * 1_000_000_000 + outcomes[k]->Ok_0.timecodes@[i].timecode_nanos
            * sample_rate;
        &&& frame.timecode_nanos * sample_rate <= exact
        &&& frame.timecode_nanos < i64::MAX && chunks[k].0 * 1_000_000_000 < i64::MAX * sample_rate
            ==> exact < frame.timecode_nanos * sample_rate + sample_rate
    })
}

/// A frame of the whole recording is some frame of some chunk.
pub open spec fn is_chunk_frame(
    frame: FrameTimecode,
    outcomes: Seq<ChunkOutcome>,
    chunks: Seq<(usize, usize)>,
    sample_rate: u32,
) -> bool {
    exists|k: int, i: int| #[trigger] stands_for(frame, outcomes, chunks, sample_rate, k, i)
}

/// Frame `i` of chunk `k` is kept, or repeats a frame that is.
pub open spec fn is_kept_or_repeats(
    kept: Seq<FrameTimecode>,
    outcomes: Seq<ChunkOutcome>,
    chunks: Seq<(usize, usize)>,
    sample_rate: u32,
    fps: FrameRate,
    config: DecodeConfig,
    k: int,
    i: int,
) -> bool {
    exists|frame: FrameTimecode, j: int|
        {
            &&& #[trigger] stands_for(frame, outcomes, chunks, sample_rate, k, i)
            &&& 0 <= j < kept.len()
            &&& repeats(frame, #[trigger] kept[j], fps, config)
        }
}

proof fn lemma_delayed_stands(
    outcomes: Seq<ChunkOutcome>,
    chunks: Seq<(usize, usize)>,
    sample_rate: u32,
    k: int,
    i: int,
)
    requires
        sample_rate > 0,
        0 <= k < outcomes.len() <= chunks.len(),
        outcomes[k] is Ok,
        0 <= i < outcomes[k]->Ok_0.timecodes@.len(),
    ensures
        stands_for(
            delayed(
                outcomes[k]->Ok_0.timecodes@,
                chunk_start(chunks, k, sample_rate),
            )[i],
            outcomes,
            chunks,
            sample_rate,
            k,
            i,
        ),
{
    let t = outcomes[k]->Ok_0.timecodes@[i].timecode_nanos;
    lemma_moved_time(chunks, k, sample_rate, t);
    lemma_chunk_start(chunks, k, sample_rate);
    let start = chunk_start(chunks, k, sample_rate);
    if start == i64::MAX {
        assert(chunks[k].0 * 1_000_000_000 >= i64::MAX * sample_rate);
    }
}

proof fn lemma_all_frames(outcomes: Seq<ChunkOutcome>, chunks: Seq<(usize, usize)>, sample_rate: u32, n: int)
    requires
        sample_rate > 0,
        0 <= n <= outcomes.len() <= chunks.len(),
    ensures
        forall|j: int|
            0 <= j < all_frames(outcomes, chunks, sample_rate, n).len() ==> is_chunk_frame(
                #[trigger] all_frames(outcomes, chunks, sample_rate, n)[j],
                outcomes,
                chunks,
                sample_rate,
            ),
        forall|k: int, i: int|
            0 <= k < n && outcomes[k] is Ok && 0 <= i < outcomes[k]->Ok_0.timecodes@.len()
                ==> all_frames(outcomes, chunks, sample_rate, n).contains(
                #[trigger] delayed(
                    outcomes[k]->Ok_0.timecodes@,
                    chunk_start(chunks, k, sample_rate),
                )[i],
            ),
    decreases n,
{
    if n > 0 {
        lemma_all_frames(outcomes, chunks, sample_rate, n - 1);
        let before = all_frames(outcomes, chunks, sample_rate, n - 1);
        let now = all_frames(outcomes, chunks, sample_rate, n);
        let start = chunk_start(chunks, n - 1, sample_rate);
        assert forall|j: int| 0 <= j < now.len() implies is_chunk_frame(
            #[trigger] now[j],
            outcomes,
            chunks,
            sample_rate,
        ) by {
            if j < before.len() {
                assert(now[j] == before[j]);
            } else {
                let i = j - before.len();
                lemma_delayed_stands(outcomes, chunks, sample_rate, n - 1, i);
                assert(now[j] == delayed(outcomes[n - 1]->Ok_0.timecodes@, start)[i]);
                assert(stands_for(now[j], outcomes, chunks, sample_rate, n - 1, i));
            }
        }
        assert forall|k: int, i: int|
            0 <= k < n && outcomes[k] is Ok && 0 <= i < outcomes[k]->Ok_0.timecodes@.len() implies now.contains(
            #[trigger] delayed(
                outcomes[k]->Ok_0.timecodes@,
                chunk_start(chunks, k, sample_rate),
            )[i],
        ) by {
            let x = delayed(outcomes[k]->Ok_0.timecodes@, chunk_start(chunks, k, sample_rate))[i];
            if k < n - 1 {
                assert(before.contains(x));
                let j = choose|j: int| 0 <= j < before.len() && before[j] == x;
                assert(now[j] == x);
            } else {
                assert(now[before.len() + i] == x);
            }
        }
    }
}

/// What is kept are frames of the list, and every frame behind the start is kept or
/// repeats one that is.
proof fn lemma_kept(s: Seq<FrameTimecode>, fps: FrameRate, config: DecodeConfig, n: int)
    requires
        0 <= n <= s.len(),
        in_time_order(s),
    ensures
        forall|j: int|
            0 <= j < without_repeats(s, fps, config, n).len() ==> s.contains(
                #[trigger] without_repeats(s, fps, config, n)[j],
            ) && without_repeats(s, fps, config, n)[j].timecode_nanos > 0,
        forall|m: int|
            0 <= m < n && (#[trigger] s[m]).timecode_nanos > 0 ==> exists|j: int|
                0 <= j < without_repeats(s, fps, config, n).len() && repeats(
                    s[m],
                    #[trigger] without_repeats(s, fps, config, n)[j],
                    fps,
                    config,
                ),
    decreases n,
{
    if n > 0 {
        lemma_kept(s, fps, config, n - 1);
        law_kept_frames_differ(s, fps, config, n - 1);
        let before = without_repeats(s, fps, config, n - 1);
        let now = without_repeats(s, fps, config, n);
        let x = s[n - 1];
        assert(x == s[n - 1]);
        if before.len() > 0 {
            assert(before[before.len() - 1].timecode_nanos > 0);
            assert(before.last().timecode_nanos <= x.timecode_nanos);
        }
        assert forall|j: int| 0 <= j < now.len() implies s.contains(#[trigger] now[j])
            && now[j].timecode_nanos > 0 by {
            if j < before.len() {
                assert(now[j] == before[j]);
            }
        }
        assert forall|m: int| 0 <= m < n && (#[trigger] s[m]).timecode_nanos > 0 implies exists|j: int|
            0 <= j < now.len() && repeats(s[m], #[trigger] now[j], fps, config) by {
            if m < n - 1 {
                let j = choose|j: int|
                    0 <= j < before.len() && repeats(s[m], #[trigger] before[j], fps, config);
                assert(now[j] == before[j]);
            } else if now.len() > before.len() {
                assert(0 * fps.num == 0);
                assert(repeats(x, now[now.len() - 1], fps, config)) by {
                    assert(2 * (x.timecode_nanos - x.timecode_nanos) * fps.num == 0)
                        by (nonlinear_arith);
                }
            } else {
                assert(repeats(x, now[now.len() - 1], fps, config));
            }
        }
    }
}

/// A frame is taken for the same as an earlier one: it is no more than half a frame
/// and half the overlap behind it.
pub open spec fn repeats(frame: FrameTimecode, kept: FrameTimecode, fps: FrameRate, config: DecodeConfig) -> bool {
    let dt = frame.timecode_nanos - kept.timecode_nanos;
    0 <= dt && 2 * dt * fps.num <= 1_000_000_000 * fps.den && 2 * dt <= config.overlap_nanos
}

/// The frames of the chunks in order of time, without repeats.
spec fn kept_frames(
    outcomes: Seq<ChunkOutcome>,
    chunks: Seq<(usize, usize)>,
    sample_rate: u32,
    fps: FrameRate,
    config: DecodeConfig,
) -> Seq<FrameTimecode> {
    let frames = all_frames(outcomes, chunks, sample_rate, outcomes.len() as int);
    let sorted = sorted_by_time(frames, frames.len() as int);
    without_repeats(sorted, fps, config, sorted.len() as int)
}

proof fn lemma_same_frames(frames: Seq<FrameTimecode>, x: FrameTimecode)
    ensures
        sorted_by_time(frames, frames.len() as int).contains(x) <==> frames.contains(x),
{
    broadcast use vstd::seq_lib::group_to_multiset_ensures;

    let sorted = sorted_by_time(frames, frames.len() as int);
    law_sorting_keeps_frames(frames, frames.len() as int);
    assert(frames.take(frames.len() as int) =~= frames);
    assert(sorted.contains(x) <==> sorted.to_multiset().count(x) > 0);
    assert(frames.contains(x) <==> frames.to_multiset().count(x) > 0);
}

proof fn lemma_kept_is_chunk_frame(
    outcomes: Seq<ChunkOutcome>,
    chunks: Seq<(usize, usize)>,
    sample_rate: u32,
    fps: FrameRate,
    config: DecodeConfig,
    j: int,
)
    requires
        sample_rate > 0,
        outcomes.len() <= chunks.len(),
        0 <= j < kept_frames(outcomes, chunks, sample_rate, fps, config).len(),
    ensures
        ({
            let kept = kept_frames(outcomes, chunks, sample_rate, fps, config);
            &&& kept[j].timecode_nanos > 0
            &&& is_chunk_frame(kept[j], outcomes, chunks, sample_rate)
            &&& j > 0 ==> kept[j - 1].timecode_nanos < kept[j].timecode_nanos
        }),
{
    let frames = all_frames(outcomes, chunks, sample_rate, outcomes.len() as int);
    let sorted = sorted_by_time(frames, frames.len() as int);
    let kept = kept_frames(outcomes, chunks, sample_rate, fps, config);
    law_sorting_keeps_frames(frames, frames.len() as int);
    lemma_kept(sorted, fps, config, sorted.len() as int);
    law_kept_frames_differ(sorted, fps, config, sorted.len() as int);
    assert(sorted.contains(kept[j]));
    lemma_same_frames(frames, kept[j]);
    let m = choose|m: int| 0 <= m < frames.len() && frames[m] == kept[j];
    lemma_all_frames(outcomes, chunks, sample_rate, outcomes.len() as int);
    assert(is_chunk_frame(frames[m], outcomes, chunks, sample_rate));
}

proof fn lemma_chunk_frame_kept(
    outcomes: Seq<ChunkOutcome>,
    chunks: Seq<(usize, usize)>,
    sample_rate: u32,
    fps: FrameRate,
    config: DecodeConfig,
    k: int,
    i: int,
) -> (j: int)
    requires
        sample_rate > 0,
        0 <= k < outcomes.len() <= chunks.len(),
        outcomes[k] is Ok,
        0 <= i < outcomes[k]->Ok_0.timecodes@.len(),
        outcomes[k]->Ok_0.timecodes@[i].timecode_nanos > 0,
    ensures
        0 <= j < kept_frames(outcomes, chunks, sample_rate, fps, config).len(),
        repeats(
            delayed(outcomes[k]->Ok_0.timecodes@, chunk_start(chunks, k, sample_rate))[i],
            kept_frames(outcomes, chunks, sample_rate, fps, config)[j],
            fps,
            config,
        ),
{
    let frames = all_frames(outcomes, chunks, sample_rate, outcomes.len() as int);
    let sorted = sorted_by_time(frames, frames.len() as int);
    let kept = kept_frames(outcomes, chunks, sample_rate, fps, config);
    let own = outcomes[k]->Ok_0.timecodes@;
    let x = delayed(own, chunk_start(chunks, k, sample_rate))[i];
    lemma_all_frames(outcomes, chunks, sample_rate, outcomes.len() as int);
    assert(frames.contains(x));
    lemma_same_frames(frames, x);
    law_sorting_keeps_frames(frames, frames.len() as int);
    let m = choose|m: int| 0 <= m < sorted.len() && sorted[m] == x;
    lemma_moved_time(chunks, k, sample_rate, own[i].timecode_nanos);
    lemma_kept(sorted, fps, config, sorted.len() as int);
    assert(sorted[m].timecode_nanos > 0);
    choose|j: int| 0 <= j < kept.len() && repeats(sorted[m], #[trigger] kept[j], fps, config)
}

/// A frame's number does not matter for what it stands for.
proof fn lemma_renumbered(
    a: FrameTimecode,
    b: FrameTimecode,
    outcomes: Seq<ChunkOutcome>,
    chunks: Seq<(usize, usize)>,
    sample_rate: u32,
)
    requires
        a.timecode == b.timecode,
        a.timecode_nanos == b.timecode_nanos,
        is_chunk_frame(a, outcomes, chunks, sample_rate),
    ensures
        is_chunk_frame(b, outcomes, chunks, sample_rate),
{
    let (k, i) = choose|k: int, i: int|
        #[trigger] stands_for(a, outcomes, chunks, sample_rate, k, i);
    assert(stands_for(b, outcomes, chunks, sample_rate, k, i));
}

/// Merging makes frames of the whole recording of the frames of its chunks. Each one
/// that is kept is a frame of some chunk, at its time in the whole recording; they
/// follow one another in time and are numbered from zero. No frame behind the start is
/// lost: it is kept, or repeats one that is kept.
pub proof fn law_merging_keeps_frames(
    outcomes: Seq<ChunkOutcome>,
    chunks: Seq<(usize, usize)>,
    total: usize,
    sample_rate: u32,
    fps: FrameRate,
    drop_frame: bool,
    config: DecodeConfig,
    got: Report,
)
    requires
        sample_rate > 0,
        outcomes.len() <= chunks.len(),
        got == coherent_report(
            merged_report(outcomes, chunks, total, sample_rate, fps, drop_frame, config),
        ),
    ensures
        forall|j: int|
            0 <= j < got.timecodes.len() ==> {
                &&& (#[trigger] got.timecodes[j]).frame_index == j as u32
                &&& got.timecodes[j].timecode_nanos > 0
                &&& is_chunk_frame(got.timecodes[j], outcomes, chunks, sample_rate)
            },
        forall|j: int|
            0 < j < got.timecodes.len() ==> got.timecodes[j - 1].timecode_nanos < (
            #[trigger] got.timecodes[j]).timecode_nanos,
        got.details.len() == outcomes.len() + 1 ==> forall|k: int, i: int|
            0 <= k < outcomes.len() && outcomes[k] is Ok && 0 <= i
                < outcomes[k]->Ok_0.timecodes@.len() && outcomes[k]->Ok_0.timecodes@[i].timecode_nanos
                > 0 ==> #[trigger] is_kept_or_repeats(
                got.timecodes,
                outcomes,
                chunks,
                sample_rate,
                fps,
                config,
                k,
                i,
            ),
{
    let merged = merged_report(outcomes, chunks, total, sample_rate, fps, drop_frame, config);
    let plain = kept_frames(outcomes, chunks, sample_rate, fps, config);
    lemma_chunk_lines(outcomes, outcomes.len() as int);
    lemma_coherent_trim(merged);
    assert(merged.timecodes == reindexed(plain));
    let skipped: int = merged.timecodes.len() - got.timecodes.len();
    assert(0 <= skipped);
    assert forall|j: int| 0 <= j < got.timecodes.len() implies {
        &&& (#[trigger] got.timecodes[j]).frame_index == j as u32
        &&& got.timecodes[j].timecode == plain[j + skipped].timecode
        &&& got.timecodes[j].timecode_nanos == plain[j + skipped].timecode_nanos
    } by {}
    assert forall|j: int| 0 <= j < got.timecodes.len() implies {
        &&& (#[trigger] got.timecodes[j]).frame_index == j as u32
        &&& got.timecodes[j].timecode_nanos > 0
        &&& is_chunk_frame(got.timecodes[j], outcomes, chunks, sample_rate)
    } by {
        let x = plain[j + skipped];
        lemma_kept_is_chunk_frame(outcomes, chunks, sample_rate, fps, config, j + skipped);
        lemma_renumbered(x, got.timecodes[j], outcomes, chunks, sample_rate);
    }
    assert forall|j: int| 0 < j < got.timecodes.len() implies got.timecodes[j - 1].timecode_nanos < (
    #[trigger] got.timecodes[j]).timecode_nanos by {
        assert(got.timecodes[j - 1].timecode_nanos == plain[j - 1 + skipped].timecode_nanos);
        lemma_kept_is_chunk_frame(outcomes, chunks, sample_rate, fps, config, j + skipped);
    }
    if got.details.len() == outcomes.len() + 1 {
        assert(got == merged);
        assert forall|k: int, i: int|
            0 <= k < outcomes.len() && outcomes[k] is Ok && 0 <= i
                < outcomes[k]->Ok_0.timecodes@.len() && outcomes[k]->Ok_0.timecodes@[i].timecode_nanos
                > 0 implies #[trigger] is_kept_or_repeats(
            got.timecodes,
            outcomes,
            chunks,
            sample_rate,
            fps,
            config,
            k,
            i,
        ) by {
            let x = delayed(outcomes[k]->Ok_0.timecodes@, chunk_start(chunks, k, sample_rate))[i];
            lemma_delayed_stands(outcomes, chunks, sample_rate, k, i);
            let j = lemma_chunk_frame_kept(outcomes, chunks, sample_rate, fps, config, k, i);
            assert(got.timecodes[j].timecode_nanos == plain[j].timecode_nanos);
            assert(repeats(x, got.timecodes[j], fps, config));
        }
    }
}

/// The counts of a merged report: the frames that were found before any were trimmed,
/// as many as there is room for to the nearest, and the status that their share earns.
pub proof fn law_merged_counts(
    outcomes: Seq<ChunkOutcome>,
    chunks: Seq<(usize, usize)>,
    total: usize,
    sample_rate: u32,
    fps: FrameRate,
    drop_frame: bool,
    config: DecodeConfig,
    got: Report,
)
    requires
        sample_rate > 0,
        fps.valid(),
        got == coherent_report(
            merged_report(outcomes, chunks, total, sample_rate, fps, drop_frame, config),
        ),
    ensures
        got.total_samples == total,
        got.sample_rate == sample_rate,
        got.detected_fps == fps,
        got.drop_frame == drop_frame,
        got.details.len() == outcomes.len() + 1 ==> got.valid_frames
            == got.timecodes.len() as u32,
        got.total_possible_frames < u32::MAX ==> {
            let unit = sample_rate * fps.den;
            let exact = total * fps.num;
            &&& 2 * (got.total_possible_frames * unit) <= 2 * exact + unit
            &&& 2 * exact + unit < 2 * (got.total_possible_frames * unit) + 2 * unit
        },
        got.total_possible_frames > 0 ==> got.avg_confidence.num == got.valid_frames
            && got.avg_confidence.den == got.total_possible_frames,
        got.status is Success <==> got.total_possible_frames > 0 && 10 * got.valid_frames >= 7
            * got.total_possible_frames,
        got.status is LowConfidence <==> 10 * got.valid_frames < 7 * got.total_possible_frames && 10
            * got.valid_frames >= 3 * got.total_possible_frames,
        got.status is Success || got.status is LowConfidence || got.status is NoSyncWord,
{
    let merged = merged_report(outcomes, chunks, total, sample_rate, fps, drop_frame, config);
    lemma_chunk_lines(outcomes, outcomes.len() as int);
    lemma_coherent_trim(merged);
    law_possible_frames(total, sample_rate, fps);
}

/// A recording has room for as many frames as its length holds at the frame rate, to
/// the nearest.
pub proof fn law_possible_frames(total: usize, sample_rate: u32, fps: FrameRate)
    requires
        sample_rate > 0,
        fps.valid(),
    ensures
        ({
            let n = frames_of(total, sample_rate, fps);
            let unit = sample_rate * fps.den;
            &&& 2 * (n * unit) <= 2 * (total * fps.num) + unit
            &&& n < u32::MAX ==> 2 * (total * fps.num) + unit < 2 * (n * unit) + 2 * unit
        }),
{
    let unit = sample_rate * fps.den;
    assert(unit > 0) by (nonlinear_arith)
        requires
            unit == sample_rate * fps.den,
            sample_rate > 0,
            fps.den > 0,
    ;
    let x = 2 * (total * fps.num) + unit;
    let q = x / (2 * unit);
    let n = frames_of(total, sample_rate, fps) as int;
    vstd::arithmetic::div_mod::lemma_fundamental_div_mod(x, 2 * unit);
    vstd::arithmetic::div_mod::lemma_mod_bound(x, 2 * unit);
    assert((2 * unit) * q == 2 * (q * unit)) by (nonlinear_arith);
    assert(x >= 0) by (nonlinear_arith)
        requires
            x == 2 * (total * fps.num) + unit,
            unit > 0,
            total >= 0,
            fps.num >= 0,
    ;
    assert(q >= 0) by (nonlinear_arith)
        requires
            q == x / (2 * unit),
            x >= 0,
            unit > 0,
    ;
    assert(n * unit <= q * unit) by (nonlinear_arith)
        requires
            n <= q,
            unit > 0,
    ;
}

// ── Decoding in chunks ─────────────────────────────────────────────────────

proof fn lemma_plan_bounds(pos: nat, chunk: nat, overlap: nat, total: nat)
    requires
        total <= usize::MAX,
    ensures
        forall|k: int|
            #![trigger chunk_plan(pos, chunk, overlap, total)[k]]
            0 <= k < chunk_plan(pos, chunk, overlap, total).len() ==> {
                let c = chunk_plan(pos, chunk, overlap, total)[k];
                c.0 <= c.1 <= total
            },
    decreases total - pos,
{
    if pos < total {
        let end = chunk_end(pos as int, chunk, total);
        let next = next_chunk(pos as int, chunk, overlap, total);
        if end < total && next > pos {
            lemma_plan_bounds(next as nat, chunk, overlap, total);
            let rest = chunk_plan(next as nat, chunk, overlap, total);
            let here = (pos as usize, end as usize);
            assert forall|k: int| 0 <= k < (seq![here] + rest).len() implies ({
                let c = #[trigger] (seq![here] + rest)[k];
                c.0 <= c.1 <= total
            }) by {
                if k > 0 {
                    assert((seq![here] + rest)[k] == rest[k - 1]);
                }
            }
        }
    }
}

/// What the raw bytes of a chunk of a file in memory are.
pub open spec fn chunk_bytes(bytes: Seq<u8>, reader: WavChunkReader, chunk: (usize, usize)) -> Seq<u8> {
    let from = reader.header().data_offset + chunk.0 * reader.frame_bytes();
    bytes.subrange(from, from + (chunk.1 - chunk.0) * reader.frame_bytes())
}

/// `outcome` is what became of chunk `index`.
pub open spec fn is_outcome(
    bytes: Seq<u8>,
    reader: WavChunkReader,
    chunk: (usize, usize),
    index: nat,
    fps: FrameRate,
    drop_frame: bool,
    outcome: ChunkOutcome,
) -> bool {
    match reader.fixed_samples(chunk_bytes(bytes, reader, chunk)) {
        Ok(samples) => match outcome {
            Ok(r) => decodes(
                Recording {
                    samples,
                    sample_rate: reader.header().sample_rate,
                    channels: 1,
                    fps,
                    drop_frame,
                },
                r,
            ),
            Err(_) => false,
        },
        Err(text) => match outcome {
            Ok(_) => false,
            Err(e) => e@ == "Failed to read chunk "@ + decimal(index) + ": "@ + text,
        },
    }
}

/// A chunk with a signal in it, of a file without a sample rate.
pub open spec fn untimed_chunk(bytes: Seq<u8>, reader: WavChunkReader, chunk: (usize, usize)) -> bool {
    reader.fixed_samples(chunk_bytes(bytes, reader, chunk)) matches Ok(samples) && untimed_signal(
        samples,
        reader.header().sample_rate,
    )
}

/// The samples that a layout counts lie within the data.
proof fn lemma_samples_within(data_len: u64, sample: int, channels: int, total: int, n: int)
    requires
        sample > 0,
        channels > 0,
        0 <= n <= total,
        total <= (data_len as int / sample) / channels,
    ensures
        0 <= n * (channels * sample) <= data_len,
{
    let q = data_len as int / sample;
    vstd::arithmetic::div_mod::lemma_fundamental_div_mod(data_len as int, sample);
    vstd::arithmetic::div_mod::lemma_fundamental_div_mod(q, channels);
    let t = q / channels;
    assert(n * channels <= channels * t) by (nonlinear_arith)
        requires
            0 <= n <= t,
            channels > 0,
    ;
    assert((n * channels) * sample <= q * sample) by (nonlinear_arith)
        requires
            n * channels <= q,
            sample > 0,
    ;
    assert(n * (channels * sample) == (n * channels) * sample) by (nonlinear_arith);
    assert(q * sample == sample * q) by (nonlinear_arith);
    assert(n * (channels * sample) >= 0) by (nonlinear_arith)
        requires
            n >= 0,
            channels > 0,
            sample > 0,
    ;
}

/// Decodes a chunk; `None` where it has a signal and the file no sample rate.
fn decode_chunk(
    bytes: &[u8],
    reader: &WavChunkReader,
    chunk: (usize, usize),
    index: usize,
    fps: FrameRate,
    drop_frame: bool,
) -> (r: Option<ChunkOutcome>)
    requires
        fps.valid(),
        reader.header().channels > 0,
        reader.header().bits_per_sample >= 8,
        reader.header().data_offset <= bytes@.len(),
        reader.lays_out(reader.header(), bytes@.len() as u64),
        chunk.0 <= chunk.1 <= reader.mono_samples(),
    ensures
        match r {
            Some(outcome) => {
                &&& is_outcome(bytes@, *reader, chunk, index as nat, fps, drop_frame, outcome)
                &&& !untimed_chunk(bytes@, *reader, chunk)
                &&& reader.header().sample_rate == 0 ==> is_frameless(outcome)
            },
            None => untimed_chunk(bytes@, *reader, chunk),
        },
{
    let len: usize = bytes.len();
    proof {
        let sample = reader.sample_bytes() as int;
        let channels = reader.header().channels as int;
        let total = reader.mono_samples() as int;
        let data = reader.data_bytes();
        lemma_mono_bound(data, sample, channels);
        lemma_samples_within(data, sample, channels, total, chunk.0 as int);
        lemma_samples_within(data, sample, channels, total, chunk.1 as int);
        lemma_samples_within(data, sample, channels, total, chunk.1 - chunk.0);
        let frame = reader.frame_bytes() as int;
        assert(chunk.1 * frame == chunk.0 * frame + (chunk.1 - chunk.0) * frame)
            by (nonlinear_arith);
    }
    let (offset, count) = reader.byte_range(chunk.0, chunk.1 - chunk.0);
    let raw = vstd::slice::slice_subrange(bytes, offset as usize, offset as usize + count);
    assert(raw@ =~= chunk_bytes(bytes@, *reader, chunk));
    match reader.read_mono_samples_f32(raw) {
        Ok(samples) => if reader.sample_rate() == 0 {
            match find_signal(samples.as_slice()) {
                Ok((threshold, zc)) => {
                    assert(is_signal(samples@, threshold, zc@));
                    None
                },
                Err(report) => Some(Ok(report)),
            }
        } else {
            Some(
                Ok(
                    decode_ltc_samples(
                        samples.as_slice(),
                        reader.sample_rate(),
                        1,
                        fps,
                        drop_frame,
                    ),
                ),
            )
        },
        Err(text) => {
            let mut message = "Failed to read chunk ".to_string();
            push_decimal(&mut message, index as u64);
            message.append(": ");
            message.append(text.as_str());
            Some(Err(message))
        },
    }
}

/// On a file in memory the samples are counted in full.
proof fn lemma_mono_bound(data: u64, sample: int, channels: int)
    requires
        data <= usize::MAX,
        sample > 0,
        channels > 0,
    ensures
        0 <= (data as int / sample) / channels <= usize::MAX,
{
    let q = data as int / sample;
    assert(0 <= q <= data) by (nonlinear_arith)
        requires
            q == data as int / sample,
            sample > 0,
    ;
    assert(0 <= q / channels <= q) by (nonlinear_arith)
        requires
            q >= 0,
            channels > 0,
    ;
}

/// `n` counted on from `from`, around the range of the counter.
pub open spec fn counted(from: usize, n: nat) -> int {
    (from + n) % (usize::MAX + 1)
}

proof fn lemma_counted(from: usize, n: nat)
    ensures
        0 <= counted(from, n) <= usize::MAX,
        counted(from, n + 1) == if counted(from, n) == usize::MAX {
            0
        } else {
            counted(from, n) + 1
        },
        counted(from, 0) == from,
{
    let m = usize::MAX + 1;
    let x = from + n;
    vstd::arithmetic::div_mod::lemma_mod_bound(x, m);
    vstd::arithmetic::div_mod::lemma_fundamental_div_mod(x, m);
    vstd::arithmetic::div_mod::lemma_small_mod(from as nat, m as nat);
    let q = x / m;
    let r = x % m;
    if r == usize::MAX {
        assert(x + 1 == m * (q + 1)) by (nonlinear_arith)
            requires
                x == m * q + r,
                r + 1 == m,
        ;
        vstd::arithmetic::div_mod::lemma_fundamental_div_mod_converse(x + 1, m, q + 1, 0);
    } else {
        vstd::arithmetic::div_mod::lemma_fundamental_div_mod_converse(x + 1, m, q, r + 1);
    }
}

/// Decodes linear timecode from a WAV file in overlapping chunks, counting the
/// completed chunks in `progress`.
///
/// A request to stop is an error, as is a file whose header is not accepted or
/// that has a signal but no sample rate.
pub fn decode_ltc_chunked(
    bytes: &[u8],
    fps: FrameRate,
    drop_frame: bool,
    config: &DecodeConfig,
    progress: &mut DecodeProgress,
) -> (r: Result<LtcDetectionResult, String>)
    requires
        fps.valid(),
    ensures
        final(progress).chunks_total == old(progress).chunks_total,
        final(progress).cancel_flag == old(progress).cancel_flag,
        r is Err ==> final(progress).chunks_completed == old(progress).chunks_completed,
        match header_of(bytes@) {
            Err(text) => {
                &&& r matches Err(e)
                &&& e@ == "Failed to read WAV header: "@ + text
            },
            Ok(info) if info.bits_per_sample < 8 => {
                &&& r matches Err(e)
                &&& e@ == "Samples are smaller than a byte"@
            },
            Ok(info) => exists|reader: WavChunkReader|
                #[trigger] reader.lays_out(info, bytes@.len() as u64) && {
                    let total = reader.mono_samples();
                    let chunks = chunk_plan(
                        0,
                        chunk_samples(
                            *config,
                            info.sample_rate,
                            reader.frame_bytes() as u64,
                            total as nat,
                        ),
                        overlap_samples(*config, info.sample_rate),
                        total as nat,
                    );
                    if total == 0 {
                        &&& r matches Ok(x) && x.is_error("Audio file contains no samples"@)
                        &&& final(progress).chunks_completed == old(progress).chunks_completed
                    } else if old(progress).cancel_flag {
                        r matches Err(e) && e@ == "Decode canceled by user"@
                    } else if exists|k: int|
                        0 <= k < chunks.len() && untimed_chunk(bytes@, reader, #[trigger] chunks[k]) {
                        r matches Err(e) && e@ == "WAV file has no sample rate"@
                    } else {
                        exists|outcomes: Seq<ChunkOutcome>|
                            {
                                &&& outcomes.len() == chunks.len()
                                &&& final(progress).chunks_completed == counted(
                                    old(progress).chunks_completed,
                                    chunks.len(),
                                )
                                &&& forall|k: int|
                                    0 <= k < chunks.len() ==> is_outcome(
                                        bytes@,
                                        reader,
                                        chunks[k],
                                        k as nat,
                                        fps,
                                        drop_frame,
                                        #[trigger] outcomes[k],
                                    )
                                &&& r matches Ok(x) && x@ == coherent_report(
                                    #[trigger] merged_report(
                                        outcomes,
                                        chunks,
                                        total,
                                        info.sample_rate,
                                        fps,
                                        drop_frame,
                                        *config,
                                    ),
                                )
                            }
                    }
                },
        },
{
    let reader = match WavChunkReader::open(bytes) {
        Ok(reader) => reader,
        Err(e) => {
            return Err(e);
        },
    };
    let ghost info = reader.header();
    assert(reader.lays_out(info, bytes@.len() as u64));
    let total: usize = reader.total_mono_samples();
    let sample_rate: u32 = reader.sample_rate();
    if total == 0 {
        return Ok(LtcDetectionResult::error("Audio file contains no samples".to_string()));
    }
    if progress.cancel_flag {
        return Err("Decode canceled by user".to_string());
    }
    proof {
        let c = reader.header().channels as int;
        let b = reader.sample_bytes() as int;
        assert(0 <= c * b <= 0xffff * 0x1fff) by (nonlinear_arith)
            requires
                0 <= c <= 0xffff,
                0 <= b <= 0x1fff,
        ;
    }
    let frame_bytes: u64 = reader.channels() as u64 * (reader.spec().bits_per_sample / 8) as u64;
    let chunks = plan_chunks(config, sample_rate, frame_bytes, total);
    proof {
        lemma_plan_bounds(
            0,
            chunk_samples(*config, sample_rate, frame_bytes, total as nat),
            overlap_samples(*config, sample_rate),
            total as nat,
        );
    }
    let before: usize = progress.chunks_completed;
    let mut outcomes: Vec<ChunkOutcome> = Vec::new();
    let mut i: usize = 0;
    proof {
        lemma_counted(old(progress).chunks_completed, 0);
    }
    while i < chunks.len()
        invariant
            i <= chunks@.len(),
            outcomes@.len() == i,
            before == old(progress).chunks_completed,
            sample_rate == info.sample_rate,
            chunks@ == chunk_plan(
                0,
                chunk_samples(
                    *config,
                    info.sample_rate,
                    reader.frame_bytes() as u64,
                    total as nat,
                ),
                overlap_samples(*config, info.sample_rate),
                total as nat,
            ),
            header_of(bytes@) == Ok::<WavInfo, Seq<char>>(info),
            total > 0,
            !old(progress).cancel_flag,
            progress.chunks_total == old(progress).chunks_total,
            progress.cancel_flag == old(progress).cancel_flag,
            progress.chunks_completed == counted(old(progress).chunks_completed, i as nat),
            fps.valid(),
            info == reader.header(),
            info.channels > 0,
            info.bits_per_sample >= 8,
            info.data_offset <= bytes@.len(),
            reader.lays_out(info, bytes@.len() as u64),
            total == reader.mono_samples(),
            forall|k: int| 0 <= k < chunks@.len() ==> (#[trigger] chunks@[k]).0 <= chunks@[k].1 <= total,
            forall|k: int|
                0 <= k < i ==> is_outcome(
                    bytes@,
                    reader,
                    chunks@[k],
                    k as nat,
                    fps,
                    drop_frame,
                    #[trigger] outcomes@[k],
                ),
            forall|k: int| 0 <= k < i ==> !untimed_chunk(bytes@, reader, #[trigger] chunks@[k]),
            info.sample_rate == 0 ==> forall|k: int|
                0 <= k < i ==> is_frameless(#[trigger] outcomes@[k]),
        decreases chunks@.len() - i,
    {
        let chunk = chunks[i];
        match decode_chunk(bytes, &reader, chunk, i, fps, drop_frame) {
            Some(outcome) => {
                outcomes.push(outcome);
            },
            None => {
                progress.chunks_completed = before;
                assert(untimed_chunk(bytes@, reader, chunks@[i as int]));
                return Err("WAV file has no sample rate".to_string());
            },
        }
        proof {
            lemma_counted(old(progress).chunks_completed, i as nat);
        }
        progress.chunks_completed = progress.chunks_completed.wrapping_add(1);
        i += 1;
    }
    let result = merge_chunks(&outcomes, &chunks, total, sample_rate, fps, drop_frame, config);
    Ok(result)
}

} // verus!
