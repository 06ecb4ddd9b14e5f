//! How long recordings are. Durations are in nanoseconds.

use vstd::prelude::*;

use crate::keyframes::{decimal_nanos, read_decimal};
use crate::paths::{extension, extension_of};
use crate::settings::RecordingType;
use crate::text::{
    ascii_lower, chars_of, decimal, lowered, padded2, push_decimal, push_padded2, push_str, strs,
    trim, trimmed,
};
use crate::wav::{header_of, wav_info, WavInfo};

verus! {

/// The nanoseconds in a second.
pub const SECOND: i64 = 1_000_000_000;

// ── One file ───────────────────────────────────────────────────────────────

/// Whether a file is a WAV file, by the extension of its name in any case.
pub open spec fn named_wav(path: Seq<char>) -> bool {
    match extension_of(path) {
        Some(e) => e.len() == 3 && ascii_lower(e[0]) == 'w' && ascii_lower(e[1]) == 'a'
            && ascii_lower(e[2]) == 'v',
        None => false,
    }
}

/// Whether the duration of a file is read from a WAV header.
pub fn is_wav(path: &str) -> (r: bool)
    ensures
        r == named_wav(path@),
{
    match extension(path) {
        Some(e) => {
            let chars = chars_of(e.as_str());
            chars.len() == 3 && lowered(chars[0]) == 'w' && lowered(chars[1]) == 'a' && lowered(
                chars[2],
            ) == 'v'
        },
        None => false,
    }
}

/// The nanoseconds that `samples` samples of each channel last, cut off behind the
/// last whole one; `None` where nothing says how fast they follow each other.
pub open spec fn samples_nanos(samples: u32, rate: u32) -> Option<i64> {
    if rate == 0 {
        None
    } else {
        Some((samples * 1_000_000_000 / rate as int) as i64)
    }
}

/// The duration a WAV file gives in its header; `None` where it cannot be read.
pub open spec fn wav_nanos(bytes: Seq<u8>) -> Option<i64> {
    match header_of(bytes) {
        Ok(info) => samples_nanos(info.duration, info.sample_rate),
        Err(_) => None,
    }
}

/// The duration that a WAV header gives.
pub fn header_duration(info: &WavInfo) -> (r: Option<i64>)
    ensures
        r == samples_nanos(info.duration, info.sample_rate),
{
    if info.sample_rate == 0 {
        return None;
    }
    let samples: u64 = info.duration as u64 * 1_000_000_000;
    let rate: u64 = info.sample_rate as u64;
    assert(samples / rate <= samples) by (nonlinear_arith)
        requires
            rate >= 1,
    ;
    Some((samples / rate) as i64)
}

/// The duration of a WAV file in memory.
pub fn wav_duration(bytes: &[u8]) -> (r: Option<i64>)
    ensures
        r == wav_nanos(bytes@),
{
    match wav_info(bytes) {
        Ok(info) => header_duration(&info),
        Err(_) => None,
    }
}

/// The duration that `ffprobe` printed: `None` where it printed nothing, or no
/// number.
pub open spec fn told_nanos(stdout: Seq<char>) -> Option<i64> {
    decimal_nanos(trimmed(stdout))
}

/// Reads the duration that `ffprobe` printed.
pub fn parse_ffprobe_duration(stdout: &str) -> (r: Option<i64>)
    ensures
        r == told_nanos(stdout@),
{
    read_decimal(trim(stdout).as_str())
}

/// The arguments that make `ffprobe` print the duration of a file.
pub fn build_duration_args(path: &str) -> (r: Vec<String>)
    ensures
        strs(r@) == seq![
            "-v"@,
            "error"@,
            "-show_entries"@,
            "format=duration"@,
            "-of"@,
            "default=noprint_wrappers=1:nokey=1"@,
            path@,
        ],
{
    let mut args: Vec<String> = Vec::new();
    push_str(&mut args, "-v");
    push_str(&mut args, "error");
    push_str(&mut args, "-show_entries");
    push_str(&mut args, "format=duration");
    push_str(&mut args, "-of");
    push_str(&mut args, "default=noprint_wrappers=1:nokey=1");
    push_str(&mut args, path);
    assert(strs(args@) =~= seq![
        "-v"@,
        "error"@,
        "-show_entries"@,
        "format=duration"@,
        "-of"@,
        "default=noprint_wrappers=1:nokey=1"@,
        path@,
    ]);
    args
}

/// The duration of a file: what its header says where it is a WAV file, read as
/// `bytes` (`None` where it could not be read), else what `ffprobe` found.
pub fn file_duration_secs_with(path: &str, bytes: Option<&[u8]>, probed: Option<i64>) -> (r: Option<
    i64,
>)
    ensures
        r == if named_wav(path@) {
            match bytes {
                Some(b) => wav_nanos(b@),
                None => None,
            }
        } else {
            probed
        },
{
    if is_wav(path) {
        match bytes {
            Some(b) => wav_duration(b),
            None => None,
        }
    } else {
        probed
    }
}

// ── A group of files ───────────────────────────────────────────────────────

/// The longest of the first `n` durations that are known.
pub open spec fn longest(durations: Seq<Option<i64>>, n: int) -> Option<i64>
    decreases n,
{
    if n <= 0 {
        None
    } else {
        match (longest(durations, n - 1), durations[n - 1]) {
            (Some(m), Some(d)) => Some(
                if d >= m {
                    d
                } else {
                    m
                },
            ),
            (None, d) => d,
            (m, None) => m,
        }
    }
}

/// The sum of the first `n` durations, as far as they are known.
pub open spec fn total(durations: Seq<Option<i64>>, n: int) -> int
    decreases n,
{
    if n <= 0 {
        0
    } else {
        total(durations, n - 1) + match durations[n - 1] {
            Some(d) => d as int,
            None => 0,
        }
    }
}

/// `n`, or the end of the range it lies beyond.
pub open spec fn held(n: int) -> i64 {
    if n > i64::MAX {
        i64::MAX
    } else if n < i64::MIN {
        i64::MIN
    } else {
        n as i64
    }
}

/// The duration of a group of files: tracks run side by side, so the longest
/// counts; clips follow one another, so they add up.
pub open spec fn group_nanos(recording_type: RecordingType, durations: Seq<Option<i64>>) -> Option<
    i64,
> {
    match recording_type {
        RecordingType::MultiTrackAudio => longest(durations, durations.len() as int),
        RecordingType::VideoClipSequence => {
            let sum = total(durations, durations.len() as int);
            if sum == 0 {
                None
            } else {
                Some(held(sum))
            }
        },
    }
}

/// The duration of a group of files, of which some durations may be unknown.
pub fn group_duration_secs(recording_type: &RecordingType, durations: &[Option<i64>]) -> (r: Option<
    i64,
>)
    ensures
        r == group_nanos(*recording_type, durations@),
{
    let n: usize = durations.len();
    let mut most: Option<i64> = None;
    let mut sum: i128 = 0;
    let mut i: usize = 0;
    while i < n
        invariant
            n == durations@.len(),
            i <= n,
            most == longest(durations@, i as int),
            sum == total(durations@, i as int),
            -0x8000_0000_0000_0000 * i <= sum <= 0x8000_0000_0000_0000 * i,
        decreases n - i,
    {
        match durations[i] {
            Some(d) => {
                most = match most {
                    Some(m) => if d >= m {
                        Some(d)
                    } else {
                        Some(m)
                    },
                    None => Some(d),
                };
                sum = sum + d as i128;
            },
            None => {},
        }
        i += 1;
    }
    match recording_type {
        RecordingType::MultiTrackAudio => most,
        RecordingType::VideoClipSequence => if sum == 0 {
            None
        } else if sum > i64::MAX as i128 {
            Some(i64::MAX)
        } else if sum < i64::MIN as i128 {
            Some(i64::MIN)
        } else {
            Some(sum as i64)
        },
    }
}

/// The longest known duration of a group is one of its durations, and none of them
/// is longer.
pub proof fn law_longest_is_greatest(durations: Seq<Option<i64>>)
    ensures
        match group_nanos(RecordingType::MultiTrackAudio, durations) {
            Some(m) => durations.contains(Some(m)) && (forall|i: int|
                0 <= i < durations.len() ==> (match #[trigger] durations[i] {
                    Some(d) => d <= m,
                    None => true,
                })),
            None => forall|i: int| 0 <= i < durations.len() ==> #[trigger] durations[i] is None,
        },
{
    lemma_longest(durations, durations.len() as int);
}

proof fn lemma_longest(durations: Seq<Option<i64>>, n: int)
    requires
        0 <= n <= durations.len(),
    ensures
        match longest(durations, n) {
            Some(m) => (exists|i: int| 0 <= i < n && #[trigger] durations[i] == Some(m)) && (forall|i: int|
                0 <= i < n ==> (match #[trigger] durations[i] {
                    Some(d) => d <= m,
                    None => true,
                })),
            None => forall|i: int| 0 <= i < n ==> #[trigger] durations[i] is None,
        },
    decreases n,
{
    if n > 0 {
        lemma_longest(durations, n - 1);
        if longest(durations, n) is Some && durations[n - 1] != longest(durations, n) {
            let m = longest(durations, n - 1)->0;
            let k = choose|i: int| 0 <= i < n - 1 && #[trigger] durations[i] == Some(m);
            assert(durations[k] == longest(durations, n));
        }
    }
}

// ── Shown ──────────────────────────────────────────────────────────────────

/// The whole seconds nearest to a duration, the greater of two; none where it is
/// negative.
pub open spec fn whole_seconds(nanos: i64) -> nat {
    if nanos < 0 {
        0
    } else {
        ((nanos + 500_000_000) / 1_000_000_000) as nat
    }
}

/// Hours, minutes and seconds, as in `1:02:03`.
pub open spec fn clock_text(seconds: nat) -> Seq<char> {
    decimal(seconds / 3600) + seq![':'] + padded2(seconds % 3600 / 60) + seq![':'] + padded2(
        seconds % 60,
    )
}

/// Writes a duration as hours, minutes and seconds.
pub fn format_duration_secs(nanos: i64) -> (r: String)
    ensures
        r@ == clock_text(whole_seconds(nanos)),
{
    let seconds: u64 = if nanos < 0 {
        0
    } else {
        (nanos as u64 + 500_000_000) / 1_000_000_000
    };
    let mut out: String = String::new();
    push_decimal(&mut out, seconds / 3600);
    out.push(':');
    push_padded2(&mut out, seconds % 3600 / 60);
    out.push(':');
    push_padded2(&mut out, seconds % 60);
    assert(out@ =~= clock_text(whole_seconds(nanos)));
    out
}

} // verus!
