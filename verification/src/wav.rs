//! WAV files: the header and samples of a file in memory, and the layout of a
//! file that is read in pieces.

use vstd::arithmetic::power2::pow2;
use vstd::prelude::*;


verus! {

/// What a WAV header says.
#[derive(Clone, Copy, Debug, PartialEq, Eq, Structural)]
pub struct WavInfo {
    pub channels: u16,
    pub sample_rate: u32,
    pub bits_per_sample: u16,
    pub is_float: bool,
    /// The number of samples in each channel.
    pub duration: u32,
    /// Where the samples begin.
    pub data_offset: u64,
}

// ── Files in memory ────────────────────────────────────────────────────────

/// What `hound::WavReader::new` makes of the bytes of a WAV file: channels,
/// sample rate, bits per sample, whether the samples are floating point,
/// duration and offset of the samples, or the text of its error.
pub uninterp spec fn parsed_header(bytes: Seq<u8>) -> Result<(u16, u32, u16, bool, u32, u64), Seq<char>>;

/// What `hound::WavReader::samples` yields for `i32`: one value for each sample
/// of each channel, `None` where it reports an error.
pub uninterp spec fn parsed_int_samples(bytes: Seq<u8>) -> Seq<Option<i32>>;

/// Reads a WAV header with `hound::WavReader::new`.
///
/// The result is a function of the bytes. A header that is accepted has at
/// least one channel and at least one bit per sample, and the samples begin
/// within the bytes, behind the eight bytes that head their chunk.
#[verifier::external_body]
fn read_header(bytes: &[u8]) -> (r: Result<WavInfo, String>)
    ensures
        match r {
            Ok(i) => parsed_header(bytes@) == Ok::<(u16, u32, u16, bool, u32, u64), Seq<char>>((
                i.channels,
                i.sample_rate,
                i.bits_per_sample,
                i.is_float,
                i.duration,
                i.data_offset,
            )),
            Err(e) => parsed_header(bytes@) == Err::<(u16, u32, u16, bool, u32, u64), Seq<char>>(e@),
        },
        r matches Ok(i) ==> i.channels > 0 && i.bits_per_sample > 0 && 8 <= i.data_offset
            <= bytes@.len(),
{
    let reader = hound::WavReader::new(std::io::Cursor::new(bytes)).map_err(|e| e.to_string())?;
    let spec = reader.spec();
    Ok(WavInfo {
        channels: spec.channels,
        sample_rate: spec.sample_rate,
        bits_per_sample: spec.bits_per_sample,
        is_float: spec.sample_format == hound::SampleFormat::Float,
        duration: reader.duration(),
        data_offset: reader.into_inner().position(),
    })
}

/// Reads the integer samples of a WAV file with `hound::WavReader::samples`.
///
/// The result is a function of the bytes.
#[verifier::external_body]
fn read_int_samples(bytes: &[u8]) -> (r: Vec<Option<i32>>)
    requires
        parsed_header(bytes@) is Ok,
    ensures
        r@ == parsed_int_samples(bytes@),
{
    match hound::WavReader::new(std::io::Cursor::new(bytes)) {
        Ok(mut reader) => reader.samples::<i32>().map(|s| s.ok()).collect(),
        Err(_) => Vec::new(),
    }
}

// ── Sample values ──────────────────────────────────────────────────────────

/// `v`, or the end of the range it lies beyond.
pub open spec fn clamped(v: int) -> i64 {
    if v > 0x4000_0000_0000_0000 {
        0x4000_0000_0000_0000
    } else if v < -0x4000_0000_0000_0000 {
        -0x4000_0000_0000_0000i64
    } else {
        v as i64
    }
}

/// The fixed-point value of an integer sample of `bits` bits.
pub open spec fn int_value(s: int, bits: u16) -> i64 {
    if bits <= 49 {
        clamped(s * pow2((49 - bits) as nat))
    } else {
        0
    }
}

fn power_of_two(n: u32) -> (r: u64)
    requires
        n <= 62,
    ensures
        r == pow2(n as nat),
        r <= 0x4000_0000_0000_0000,
{
    let mut r: u64 = 1;
    let mut k: u32 = 0;
    proof {
        vstd::arithmetic::power2::lemma2_to64();
    }
    while k < n
        invariant
            k <= n <= 62,
            r == pow2(k as nat),
        decreases n - k,
    {
        proof {
            vstd::arithmetic::power2::lemma_pow2_unfold((k + 1) as nat);
            vstd::arithmetic::power2::lemma2_to64();
            vstd::arithmetic::power2::lemma2_to64_rest();
            if k + 1 < 62 {
                vstd::arithmetic::power2::lemma_pow2_strictly_increases((k + 1) as nat, 62);
            }
        }
        r = r * 2;
        k += 1;
    }
    proof {
        vstd::arithmetic::power2::lemma2_to64_rest();
        if n < 62 {
            vstd::arithmetic::power2::lemma_pow2_strictly_increases(n as nat, 62);
        }
    }
    r
}

fn clamp(v: i128) -> (r: i64)
    ensures
        r == clamped(v as int),
{
    if v > 0x4000_0000_0000_0000 {
        0x4000_0000_0000_0000
    } else if v < -0x4000_0000_0000_0000 {
        -0x4000_0000_0000_0000
    } else {
        v as i64
    }
}

pub(crate) fn int_to_fixed(s: i32, bits: u16) -> (r: i64)
    ensures
        r == int_value(s as int, bits),
{
    if bits > 49 {
        return 0;
    }
    let factor: u64 = power_of_two((49 - bits) as u32);
    proof {
        assert(-0x8000_0000 * 0x4000_0000_0000_0000 <= s * factor <= 0x8000_0000
            * 0x4000_0000_0000_0000) by (nonlinear_arith)
            requires
                -0x8000_0000 <= s <= 0x7fff_ffff,
                0 <= factor <= 0x4000_0000_0000_0000,
        ;
    }
    clamp((s as i128) * (factor as i128))
}

/// The size of a single precision number in fixed point, from its exponent and
/// mantissa, rounded towards zero. It is held to 2^14 times full scale, which is what
/// the fixed point can count to; what is not a number counts as zero.
pub open spec fn float_size(exponent: nat, mantissa: nat) -> int {
    if exponent == 255 {
        if mantissa == 0 {
            0x4000_0000_0000_0000
        } else {
            0
        }
    } else if exponent == 0 {
        0
    } else if exponent >= 140 {
        0x4000_0000_0000_0000
    } else if exponent >= 102 {
        ((0x80_0000 + mantissa) * pow2((exponent - 102) as nat)) as int
    } else {
        (0x80_0000 + mantissa) as int / pow2((102 - exponent) as nat) as int
    }
}

/// The fixed-point value of a single precision number, given by its bit pattern.
pub open spec fn float_value(bits: u32) -> i64 {
    let size = clamped(float_size((bits as nat / 0x80_0000) % 256, bits as nat % 0x80_0000));
    if bits >= 0x8000_0000 {
        (-size) as i64
    } else {
        size
    }
}

/// Converts the bit pattern of a single precision sample to fixed point.
pub fn float_to_fixed(bits: u32) -> (r: i64)
    ensures
        r == float_value(bits),
{
    let exponent: u32 = (bits / 0x80_0000) % 256;
    let mantissa: u32 = bits % 0x80_0000;
    let size: i64 = if exponent == 255 {
        if mantissa == 0 {
            0x4000_0000_0000_0000
        } else {
            0
        }
    } else if exponent == 0 {
        0
    } else if exponent >= 140 {
        0x4000_0000_0000_0000
    } else if exponent >= 102 {
        let factor: u64 = power_of_two(exponent - 102);
        let whole: u32 = 0x80_0000 + mantissa;
        proof {
            assert(0 <= whole * factor <= 0xff_ffff * 0x4000_0000_0000_0000) by (nonlinear_arith)
                requires
                    0 <= whole <= 0xff_ffff,
                    0 <= factor <= 0x4000_0000_0000_0000,
            ;
        }
        clamp((whole as i128) * (factor as i128))
    } else if exponent >= 40 {
        let factor: u64 = power_of_two(102 - exponent);
        proof {
            vstd::arithmetic::power2::lemma_pow2_pos((102 - exponent) as nat);
            assert((0x80_0000 + mantissa) as int / factor as int <= 0xff_ffff) by (nonlinear_arith)
                requires
                    factor >= 1,
                    0 <= mantissa < 0x80_0000,
            ;
        }
        ((0x80_0000u64 + mantissa as u64) / factor) as i64
    } else {
        proof {
            let n = (102 - exponent) as nat;
            vstd::arithmetic::power2::lemma2_to64();
            vstd::arithmetic::power2::lemma2_to64_rest();
            vstd::arithmetic::power2::lemma_pow2_strictly_increases(62, n);
            assert((0x80_0000 + mantissa) as int / pow2(n) as int == 0) by (nonlinear_arith)
                requires
                    pow2(n) > 0x100_0000,
                    0 <= mantissa < 0x80_0000,
            ;
        }
        0
    };
    if bits >= 0x8000_0000 {
        -size
    } else {
        size
    }
}

// ── Mono samples of a file in memory ───────────────────────────────────────

/// The values that are there.
pub open spec fn present(s: Seq<Option<i32>>, n: int) -> Seq<i32>
    decreases n,
{
    if n <= 0 {
        seq![]
    } else if s[n - 1] is Some {
        present(s, n - 1).push(s[n - 1]->0)
    } else {
        present(s, n - 1)
    }
}

/// The values of the first of `channels` interleaved channels.
pub open spec fn first_channel(s: Seq<i32>, channels: nat) -> Seq<i32> {
    Seq::new(
        (s.len() + channels - 1) as nat / channels,
        |i: int| s[i * channels],
    )
}

/// The little-endian number in the four bytes at `at`.
pub open spec fn le_u32(raw: Seq<u8>, at: int) -> u32 {
    (raw[at] + 0x100 * raw[at + 1] + 0x1_0000 * raw[at + 2] + 0x100_0000 * raw[at + 3]) as u32
}

pub(crate) fn read_le_u32(raw: &[u8], at: usize) -> (r: u32)
    requires
        at + 4 <= raw@.len(),
    ensures
        r == le_u32(raw@, at as int),
{
    let n: usize = raw.len();
    assert(at + 4 <= n);
    raw[at] as u32 + 0x100 * raw[at + 1] as u32 + 0x1_0000 * raw[at + 2] as u32 + 0x100_0000
        * raw[at + 3] as u32
}

/// What the header of a WAV file in memory says, or the text of the error.
pub open spec fn header_of(bytes: Seq<u8>) -> Result<WavInfo, Seq<char>> {
    match parsed_header(bytes) {
        Ok(h) => Ok(
            WavInfo {
                channels: h.0,
                sample_rate: h.1,
                bits_per_sample: h.2,
                is_float: h.3,
                duration: h.4,
                data_offset: h.5,
            },
        ),
        Err(e) => Err(e),
    }
}

/// Reads the header of a WAV file in memory.
pub fn wav_info(bytes: &[u8]) -> (r: Result<WavInfo, String>)
    ensures
        match r {
            Ok(i) => header_of(bytes@) == Ok::<WavInfo, Seq<char>>(i) && i.channels > 0
                && i.bits_per_sample > 0 && 8 <= i.data_offset <= bytes@.len(),
            Err(e) => header_of(bytes@) == Err::<WavInfo, Seq<char>>(e@),
        },
{
    read_header(bytes)
}

/// The samples of a file are single precision numbers of four bytes each: the
/// length of their chunk, which stands before them, counts four bytes for each.
pub open spec fn single_precision(bytes: Seq<u8>, info: WavInfo) -> bool {
    info.is_float && info.bits_per_sample == 32 && le_u32(bytes, info.data_offset - 4) == 4 * (
    info.duration * info.channels)
}

/// The fixed-point samples of the first channel of a WAV file in memory whose
/// header was accepted. Of floating-point samples only those in single precision
/// are read.
pub open spec fn mono_samples_of(bytes: Seq<u8>, info: WavInfo) -> Seq<i64> {
    if single_precision(bytes, info) {
        float_samples(bytes.skip(info.data_offset as int), info.channels as nat, info.duration as nat)
    } else if info.is_float {
        seq![]
    } else {
        let all = parsed_int_samples(bytes);
        first_channel(present(all, all.len() as int), info.channels as nat).map_values(
            |s: i32| int_value(s as int, info.bits_per_sample),
        )
    }
}

/// The samples of the first channel in raw single precision data, at most `limit`.
/// The last of them counts though the other channels are cut off behind it.
pub open spec fn float_samples(raw: Seq<u8>, channels: nat, limit: nat) -> Seq<i64> {
    let available = (raw.len() / 4 + channels - 1) as nat / channels;
    Seq::new(
        if available < limit { available } else { limit },
        |i: int| float_value(le_u32(raw, 4 * (i * channels))),
    )
}

fn keep_present(s: &Vec<Option<i32>>) -> (r: Vec<i32>)
    ensures
        r@ == present(s@, s@.len() as int),
{
    let mut out: Vec<i32> = Vec::new();
    let mut i: usize = 0;
    while i < s.len()
        invariant
            i <= s@.len(),
            out@ == present(s@, i as int),
        decreases s@.len() - i,
    {
        if let Some(v) = s[i] {
            out.push(v);
        }
        i += 1;
    }
    out
}

/// Reads the integer samples of a WAV file that are there.
pub(crate) fn read_present_samples(bytes: &[u8]) -> (r: Vec<i32>)
    requires
        header_of(bytes@) is Ok,
    ensures
        r@ == present(parsed_int_samples(bytes@), parsed_int_samples(bytes@).len() as int),
{
    keep_present(&read_int_samples(bytes))
}

/// Picks the values of the first channel.
pub(crate) fn first_channel_values(there: &Vec<i32>, channels: usize) -> (r: Vec<i32>)
    requires
        channels > 0,
    ensures
        r@ == first_channel(there@, channels as nat),
{
    let n: usize = there.len();
    proof {
        lemma_ceil_div(n as int, channels as int);
    }
    let whole: usize = n / channels;
    let count: usize = if n % channels == 0 {
        whole
    } else {
        whole + 1
    };
    let mut out: Vec<i32> = Vec::new();
    let mut i: usize = 0;
    while i < count
        invariant
            i <= count,
            n == there@.len(),
            channels > 0,
            count == (n + channels - 1) / (channels as int),
            out@.len() == i,
            forall|k: int| 0 <= k < i ==> #[trigger] out@[k] == there@[k * channels],
        decreases count - i,
    {
        proof {
            lemma_frame_within(i as int, channels as int, n as int);
        }
        out.push(there[i * channels]);
        i += 1;
    }
    assert(out@ =~= first_channel(there@, channels as nat));
    out
}

/// Frame `i` of `channels` values each lies within `len` values.
proof fn lemma_frame_within(i: int, channels: int, len: int)
    requires
        channels > 0,
        0 <= i,
        i < (len + channels - 1) / channels,
    ensures
        0 <= i * channels < len,
{
    let q = (len + channels - 1) / channels;
    vstd::arithmetic::div_mod::lemma_fundamental_div_mod(len + channels - 1, channels);
    assert(i * channels <= (q - 1) * channels) by (nonlinear_arith)
        requires
            i <= q - 1,
            channels > 0,
    ;
    assert((q - 1) * channels == channels * q - channels) by (nonlinear_arith);
    assert(i * channels >= 0) by (nonlinear_arith)
        requires
            i >= 0,
            channels > 0,
    ;
}

/// Reads the samples of the first channel of a WAV file in memory.
pub(crate) fn read_mono_samples(bytes: &[u8], info: &WavInfo) -> (r: Vec<i64>)
    requires
        header_of(bytes@) == Ok::<WavInfo, Seq<char>>(*info),
        info.channels > 0,
        8 <= info.data_offset <= bytes@.len(),
    ensures
        r@ == mono_samples_of(bytes@, *info),
{
    let channels: usize = info.channels as usize;
    let mut out: Vec<i64> = Vec::new();
    if info.is_float {
        let size: usize = bytes.len();
        assert(info.data_offset <= size);
        let length: u64 = read_le_u32(bytes, info.data_offset as usize - 4) as u64;
        proof {
            assert(0 <= info.duration * info.channels <= 0xffff_ffff * 0xffff) by (nonlinear_arith)
                requires
                    0 <= info.duration <= 0xffff_ffff,
                    0 <= info.channels <= 0xffff,
            ;
        }
        if info.bits_per_sample != 32 || length != 4 * (info.duration as u64 * info.channels as u64) {
            return out;
        }
        let data = vstd::slice::slice_subrange(bytes, info.data_offset as usize, size);
        assert(data@ =~= bytes@.skip(info.data_offset as int));
        let whole: usize = data.len() / 4;
        proof {
            lemma_ceil_div(whole as int, channels as int);
        }
        let frames: usize = whole / channels;
        let available: usize = if whole % channels == 0 {
            frames
        } else {
            frames + 1
        };
        let count: usize = if (available as u64) < info.duration as u64 {
            available
        } else {
            info.duration as usize
        };
        let mut i: usize = 0;
        while i < count
            invariant
                i <= count <= available,
                channels == info.channels,
                channels > 0,
                whole == data@.len() / 4,
                available == (whole + channels - 1) / (channels as int),
                out@.len() == i,
                forall|k: int|
                    0 <= k < i ==> #[trigger] out@[k] == float_value(
                        le_u32(data@, 4 * (k * channels)),
                    ),
            decreases count - i,
        {
            proof {
                lemma_frame_within(i as int, channels as int, whole as int);
            }
            let n: usize = data.len();
            assert(4 * (i * channels) + 4 <= n);
            out.push(float_to_fixed(read_le_u32(data, 4 * (i * channels))));
            i += 1;
        }
        assert(out@ =~= mono_samples_of(bytes@, *info));
    } else {
        let left = first_channel_values(&read_present_samples(bytes), channels);
        let mut i: usize = 0;
        while i < left.len()
            invariant
                i <= left@.len(),
                out@.len() == i,
                forall|k: int|
                    0 <= k < i ==> #[trigger] out@[k] == int_value(
                        left@[k] as int,
                        info.bits_per_sample,
                    ),
            decreases left@.len() - i,
        {
            out.push(int_to_fixed(left[i], info.bits_per_sample));
            i += 1;
        }
        assert(out@ =~= mono_samples_of(bytes@, *info));
    }
    out
}

proof fn lemma_ceil_div(n: int, d: int)
    requires
        n >= 0,
        d > 0,
    ensures
        (n + d - 1) / d == n / d + (if n % d == 0 { 0int } else { 1 }),
        (n + d - 1) / d <= n,
{
    vstd::arithmetic::div_mod::lemma_fundamental_div_mod(n, d);
    let q = n / d;
    let r = n % d;
    assert(d * q == q * d) by (nonlinear_arith);
    assert((q + 1) * d == q * d + d) by (nonlinear_arith);
    assert(n >= 1 ==> (n + d - 1) / d <= n) by (nonlinear_arith)
        requires
            d >= 1,
            n >= 0,
    ;
    if n == 0 {
        assert(q == 0 && r == 0) by (nonlinear_arith)
            requires
                n == 0,
                d > 0,
                q == n / d,
                r == n % d,
        ;
    }
    if r == 0 {
        vstd::arithmetic::div_mod::lemma_fundamental_div_mod_converse(n + d - 1, d, q, d - 1);
    } else {
        vstd::arithmetic::div_mod::lemma_fundamental_div_mod_converse(n + d - 1, d, q + 1, r - 1);
    }
}

// ── The start of a file ────────────────────────────────────────────────────

/// Whether the bytes are the start of a WAV file whose first chunk describes its
/// format.
pub open spec fn starts_as_wav(b: Seq<u8>) -> bool {
    &&& b.len() >= 28
    &&& b[0] == 0x52 && b[1] == 0x49 && b[2] == 0x46 && b[3] == 0x46
    &&& b[8] == 0x57 && b[9] == 0x41 && b[10] == 0x56 && b[11] == 0x45
    &&& b[12] == 0x66 && b[13] == 0x6d && b[14] == 0x74 && b[15] == 0x20
}

/// Reads the sample rate from the first bytes of a WAV file.
pub fn read_wav_sample_rate(bytes: &[u8]) -> (r: Option<u32>)
    ensures
        r == if starts_as_wav(bytes@) {
            Some(le_u32(bytes@, 24))
        } else {
            None
        },
{
    if bytes.len() < 28 {
        return None;
    }
    let riff = bytes[0] == 0x52 && bytes[1] == 0x49 && bytes[2] == 0x46 && bytes[3] == 0x46;
    let wave = bytes[8] == 0x57 && bytes[9] == 0x41 && bytes[10] == 0x56 && bytes[11] == 0x45;
    let fmt = bytes[12] == 0x66 && bytes[13] == 0x6d && bytes[14] == 0x74 && bytes[15] == 0x20;
    if riff && wave && fmt {
        Some(read_le_u32(bytes, 24))
    } else {
        None
    }
}

} // verus!
