//! Following one run of ffmpeg: progress from its output and what its end means.
//!
//! Times are in microseconds, progress in millionths.

use vstd::prelude::*;

use crate::regexes::{find_groups, group_texts, groups_of_match};
use crate::text::{
    concat2, concat3, decimal, digits_value, push_decimal, same, trim, trimmed, value_of_digits,
};

verus! {

/// All of a piece of work.
pub const FULL: u32 = 1_000_000;

/// A failed step.
#[derive(Clone, Debug, PartialEq)]
pub enum StepFailure {
    /// ffmpeg ended before it had produced anything: another encoder may work.
    EncoderInit(String),
    /// Another encoder would not help.
    Fatal(String),
}

/// The text of a failure.
pub open spec fn failure_text(f: StepFailure) -> Seq<char> {
    match f {
        StepFailure::EncoderInit(t) => t@,
        StepFailure::Fatal(t) => t@,
    }
}

// ── Times in ffmpeg's output ───────────────────────────────────────────────

/// The pattern of a progress line.
pub const OUT_TIME_PATTERN: &'static str = r"out_time=(\d+):(\d+):(\d+)\.(\d+)";

/// The pattern of an input's duration.
pub const DURATION_PATTERN: &'static str = r"Duration: (\d+):(\d+):(\d+)\.(\d+)";

/// The value of a group of digits; 0 for anything else.
pub open spec fn group_value(groups: Seq<Option<Seq<char>>>, i: int) -> nat {
    if 0 <= i < groups.len() && groups[i] is Some {
        digits_value(groups[i]->0)
    } else {
        0
    }
}

/// Hours, minutes, seconds and a fraction in units of `fraction` microseconds,
/// held to the range of `u64`.
pub open spec fn clock_micros(groups: Seq<Option<Seq<char>>>, fraction: nat) -> nat {
    let micros = ((group_value(groups, 1) * 60 + group_value(groups, 2)) * 60 + group_value(
        groups,
        3,
    )) * 1_000_000 + group_value(groups, 4) * fraction;
    if micros <= u64::MAX {
        micros
    } else {
        u64::MAX as nat
    }
}

/// The time that a progress line tells, if it tells one.
pub open spec fn out_time(line: Seq<char>) -> Option<nat> {
    match groups_of_match(OUT_TIME_PATTERN@, line) {
        Some(groups) => Some(clock_micros(groups, 1)),
        None => None,
    }
}

/// The duration that a line tells, if it tells one that is not zero.
pub open spec fn told_duration(line: Seq<char>) -> Option<nat> {
    match groups_of_match(DURATION_PATTERN@, line) {
        Some(groups) => if clock_micros(groups, 10_000) > 0 {
            Some(clock_micros(groups, 10_000))
        } else {
            None
        },
        None => None,
    }
}

fn value_of_group(groups: &Vec<Option<String>>, i: usize) -> (r: u64)
    ensures
        r == group_value(group_texts(groups@), i as int),
{
    if i < groups.len() {
        assert(group_texts(groups@)[i as int] == match groups@[i as int] {
            Some(text) => Some(text@),
            None => None,
        });
        match &groups[i] {
            Some(text) => value_of_digits(text.as_str()),
            None => 0,
        }
    } else {
        0
    }
}

/// The time that the groups of a match tell: hours, minutes, seconds and a
/// fraction in units of `fraction` microseconds.
pub fn clock_of_groups(groups: &Vec<Option<String>>, fraction: u32) -> (r: u64)
    ensures
        r == clock_micros(group_texts(groups@), fraction as nat),
{
    let h: u128 = value_of_group(groups, 1) as u128;
    let m: u128 = value_of_group(groups, 2) as u128;
    let s: u128 = value_of_group(groups, 3) as u128;
    let f: u128 = value_of_group(groups, 4) as u128;
    let unit: u128 = fraction as u128;
    assert(f * unit <= 0xffff_ffff_ffff_ffffu128 * 0xffff_ffffu128) by (nonlinear_arith)
        requires
            f <= 0xffff_ffff_ffff_ffffu128,
            unit <= 0xffff_ffffu128,
    ;
    let micros: u128 = ((h * 60 + m) * 60 + s) * 1_000_000 + f * unit;
    if micros <= u64::MAX as u128 {
        micros as u64
    } else {
        u64::MAX
    }
}

/// The time that a line `out_time=HH:MM:SS.ssssss` tells, in microseconds. Other
/// lines tell none.
pub fn parse_out_time(line: &str) -> (r: Option<u64>)
    ensures
        match r {
            Some(micros) => out_time(line@) == Some(micros as nat),
            None => out_time(line@) is None,
        },
{
    match find_groups(OUT_TIME_PATTERN, line) {
        Some(groups) => Some(clock_of_groups(&groups, 1)),
        None => None,
    }
}

fn parse_duration(line: &str) -> (r: Option<u64>)
    ensures
        match r {
            Some(micros) => told_duration(line@) == Some(micros as nat) && micros > 0,
            None => told_duration(line@) is None,
        },
{
    match find_groups(DURATION_PATTERN, line) {
        Some(groups) => {
            let micros = clock_of_groups(&groups, 10_000);
            if micros > 0 {
                Some(micros)
            } else {
                None
            }
        },
        None => None,
    }
}

// ── One run ────────────────────────────────────────────────────────────────

/// What is known of a run while it lasts.
#[derive(Clone, Debug)]
pub struct StepRun {
    /// All lines so far.
    pub log: String,
    pub progress: u32,
    /// Whether anything was encoded.
    pub produced_output: bool,
    pub duration: Option<u64>,
}

/// The model of [`StepRun`].
#[verifier::ext_equal]
pub struct Run {
    pub log: Seq<char>,
    pub progress: nat,
    pub produced: bool,
    pub duration: Option<nat>,
}

impl View for StepRun {
    type V = Run;

    open spec fn view(&self) -> Run {
        Run {
            log: self.log@,
            progress: self.progress as nat,
            produced: self.produced_output,
            duration: match self.duration {
                Some(d) => Some(d as nat),
                None => None,
            },
        }
    }
}

/// The progress at a time: the share of the duration, or a hundredth where the
/// duration is not known.
pub open spec fn progress_at(time: nat, duration: Option<nat>, before: nat) -> nat {
    match duration {
        Some(total) => if total == 0 {
            before
        } else if time >= total {
            FULL as nat
        } else {
            time * FULL as nat / total
        },
        None => if time > 0 {
            10_000
        } else {
            before
        },
    }
}

/// A run after one more line, with what the line tells.
pub open spec fn after_line(run: Run, line: Seq<char>, told: Option<nat>, time: Option<nat>) -> Run {
    let duration = match run.duration {
        Some(d) => Some(d),
        None => told,
    };
    let progress = match time {
        Some(t) => progress_at(t, duration, run.progress),
        None => run.progress,
    };
    Run {
        log: run.log + line + "\n"@,
        progress: if trimmed(line) == "progress=end"@ {
            FULL as nat
        } else {
            progress
        },
        produced: run.produced || (time matches Some(t) && t > 0),
        duration,
    }
}

impl StepRun {
    /// A run that has told nothing yet.
    pub fn new() -> (r: StepRun)
        ensures
            r@ == (Run { log: seq![], progress: 0, produced: false, duration: None }),
    {
        StepRun { log: String::new(), progress: 0, produced_output: false, duration: None }
    }

    /// Takes a line of ffmpeg's output, with the duration and the time that it
    /// tells.
    pub fn take_line(&mut self, line: &str, told: Option<u64>, time: Option<u64>)
        ensures
            final(self)@ == after_line(
                old(self)@,
                line@,
                match told {
                    Some(d) => Some(d as nat),
                    None => None,
                },
                match time {
                    Some(t) => Some(t as nat),
                    None => None,
                },
            ),
    {
        self.log.append(line);
        self.log.append("\n");
        if self.duration.is_none() {
            self.duration = told;
        }
        match time {
            Some(t) => {
                if t > 0 {
                    self.produced_output = true;
                }
                match self.duration {
                    Some(total) => {
                        if total > 0 {
                            self.progress = share(t, total);
                        }
                    },
                    None => {
                        if t > 0 {
                            self.progress = 10_000;
                        }
                    },
                }
            },
            None => {},
        }
        let text = trim(line);
        if same(text.as_str(), "progress=end") {
            self.progress = FULL;
        }
    }

    /// Reads a line of ffmpeg's output.
    pub fn read_line(&mut self, line: &str)
        ensures
            final(self)@ == after_line(old(self)@, line@, told_duration(line@), out_time(line@)),
    {
        let told = parse_duration(line);
        let time = parse_out_time(line);
        self.take_line(line, told, time);
    }
}

/// The share of `total` that `part` is, in millionths.
fn share(part: u64, total: u64) -> (r: u32)
    requires
        total > 0,
    ensures
        r == progress_at(part as nat, Some(total as nat), 0),
{
    if part >= total {
        return FULL;
    }
    let p: u128 = part as u128;
    let t: u128 = total as u128;
    let q: u128 = p * (FULL as u128) / t;
    assert(q <= 1_000_000) by (nonlinear_arith)
        requires
            q == p * 1_000_000 / (t as int),
            p < t,
    ;
    q as u32
}

// ── The end of a run ───────────────────────────────────────────────────────

/// An output of this size holds more than a header.
pub const MIN_PRODUCED_OUTPUT_BYTES: u64 = 4096;

/// Another encoder may be tried after a failure: nothing was produced.
pub open spec fn retryable(produced: bool, output_bytes: nat) -> bool {
    !produced && output_bytes < MIN_PRODUCED_OUTPUT_BYTES
}

/// Tells what a non-zero exit means, from the progress and from the size of the
/// output file (0 where there is none).
pub fn classify_step_failure(produced_output: bool, output_bytes: u64, code: &str) -> (r:
    StepFailure)
    ensures
        r is EncoderInit <==> retryable(produced_output, output_bytes as nat),
        failure_text(r) == if retryable(produced_output, output_bytes as nat) {
            "ffmpeg exited with code "@ + code@ + " before producing output"@
        } else {
            "ffmpeg exited with code "@ + code@
        },
{
    if produced_output || output_bytes >= MIN_PRODUCED_OUTPUT_BYTES {
        StepFailure::Fatal(concat2("ffmpeg exited with code ", code))
    } else {
        StepFailure::EncoderInit(
            concat3("ffmpeg exited with code ", code, " before producing output"),
        )
    }
}

/// How a run ended.
#[derive(Clone, Debug)]
pub enum RunEnd {
    /// It could not be started; the text says why.
    NotStarted(String),
    /// It was stopped by the user.
    Cancelled,
    /// It exited with status zero.
    Succeeded,
    /// It exited with another status, or was killed; the size is that of the
    /// output file.
    Exited { code: Option<i32>, output_bytes: u64 },
    /// Its end could not be learnt; the text says why.
    Lost(String),
}

/// The exit status as a text.
pub open spec fn code_text(code: Option<i32>) -> Seq<char> {
    match code {
        Some(c) => if c < 0 {
            "-"@ + decimal((-c) as nat)
        } else {
            decimal(c as nat)
        },
        None => "unknown"@,
    }
}

/// `[step/total]`.
pub open spec fn step_label(step: nat, total: nat) -> Seq<char> {
    "["@ + decimal(step) + "/"@ + decimal(total) + "]"@
}

/// What the end of a run adds to the log of the conversion.
pub open spec fn end_log(run: Run, end: RunEnd, label: Seq<char>) -> Seq<char> {
    match end {
        RunEnd::NotStarted(reason) => "\n\n--- "@ + (label + " Failed to spawn ffmpeg: "@
            + reason@) + " ---"@,
        RunEnd::Cancelled => label + " --- CANCELLED ---\n"@ + "\n\n--- CANCELLED BY USER ---"@,
        RunEnd::Succeeded => run.log,
        RunEnd::Exited { code, .. } => run.log + ("\n\n--- FFMPEG EXITED WITH CODE "@ + code_text(
            code,
        ) + " ---"@),
        RunEnd::Lost(reason) => run.log + ("\n\n--- FFMPEG ERROR: "@ + reason@ + " ---"@),
    }
}

/// The failure that the end of a run means, if it means one: its text and whether
/// another encoder may be tried.
pub open spec fn end_failure(run: Run, end: RunEnd, label: Seq<char>) -> Option<(Seq<char>, bool)> {
    match end {
        RunEnd::NotStarted(reason) => Some(
            (label + " Failed to spawn ffmpeg: "@ + reason@, false),
        ),
        RunEnd::Cancelled => Some(("cancelled by user"@, false)),
        RunEnd::Succeeded => None,
        RunEnd::Exited { code, output_bytes } => Some(
            if retryable(run.produced, output_bytes as nat) {
                (
                    "ffmpeg exited with code "@ + code_text(code) + " before producing output"@,
                    true,
                )
            } else {
                ("ffmpeg exited with code "@ + code_text(code), false)
            },
        ),
        RunEnd::Lost(reason) => Some((reason@, false)),
    }
}

fn format_code(code: Option<i32>) -> (r: String)
    ensures
        r@ == code_text(code),
{
    match code {
        Some(c) => {
            let mut out = String::new();
            if c < 0 {
                out.append("-");
                push_decimal(&mut out, (-(c as i64)) as u64);
            } else {
                push_decimal(&mut out, c as u64);
            }
            assert(out@ =~= code_text(code));
            out
        },
        None => "unknown".to_string(),
    }
}

/// Formats `[step/total]`.
pub fn format_step_label(step: usize, total: usize) -> (r: String)
    ensures
        r@ == step_label(step as nat, total as nat),
{
    let mut out = "[".to_string();
    push_decimal(&mut out, step as u64);
    out.append("/");
    push_decimal(&mut out, total as u64);
    out.append("]");
    out
}

/// Ends a run: writes what is to be logged to the end of `log` and tells whether
/// it succeeded.
pub fn finish_run(run: &StepRun, end: &RunEnd, label: &str, log: &mut String) -> (r: Result<
    (),
    StepFailure,
>)
    ensures
        final(log)@ == old(log)@ + end_log(run@, *end, label@),
        match r {
            Ok(_) => end_failure(run@, *end, label@) is None,
            Err(f) => end_failure(run@, *end, label@) == Some((failure_text(f), f is EncoderInit)),
        },
{
    match end {
        RunEnd::NotStarted(reason) => {
            let text = concat3(label, " Failed to spawn ffmpeg: ", reason.as_str());
            log.append("\n\n--- ");
            log.append(text.as_str());
            log.append(" ---");
            assert(log@ =~= old(log)@ + end_log(run@, *end, label@));
            Err(StepFailure::Fatal(text))
        },
        RunEnd::Cancelled => {
            log.append(label);
            log.append(" --- CANCELLED ---\n");
            log.append("\n\n--- CANCELLED BY USER ---");
            assert(log@ =~= old(log)@ + end_log(run@, *end, label@));
            Err(StepFailure::Fatal("cancelled by user".to_string()))
        },
        RunEnd::Succeeded => {
            log.append(run.log.as_str());
            Ok(())
        },
        RunEnd::Exited { code, output_bytes } => {
            let text = format_code(*code);
            log.append(run.log.as_str());
            log.append("\n\n--- FFMPEG EXITED WITH CODE ");
            log.append(text.as_str());
            log.append(" ---");
            assert(log@ =~= old(log)@ + end_log(run@, *end, label@));
            Err(classify_step_failure(run.produced_output, *output_bytes, text.as_str()))
        },
        RunEnd::Lost(reason) => {
            log.append(run.log.as_str());
            log.append("\n\n--- FFMPEG ERROR: ");
            log.append(reason.as_str());
            log.append(" ---");
            assert(log@ =~= old(log)@ + end_log(run@, *end, label@));
            Err(StepFailure::Fatal(reason.clone()))
        },
    }
}

// ── Laws ───────────────────────────────────────────────────────────────────

/// A line never makes what was produced unproduced, and progress stays within
/// the whole.
pub proof fn law_lines_accumulate(run: Run, line: Seq<char>, told: Option<nat>, time: Option<nat>)
    requires
        run.progress <= FULL,
    ensures
        run.produced ==> after_line(run, line, told, time).produced,
        after_line(run, line, told, time).progress <= FULL,
        run.duration is Some ==> after_line(run, line, told, time).duration == run.duration,
{
    let duration = match run.duration {
        Some(d) => Some(d),
        None => told,
    };
    if let (Some(t), Some(total)) = (time, duration) {
        if total > 0 && t < total {
            assert(t * FULL as nat / total <= FULL) by (nonlinear_arith)
                requires
                    t < total,
                    FULL == 1_000_000,
            ;
        }
    }
}

/// The line that ends the progress report is no sign that anything was produced.
pub proof fn law_end_line_produces_nothing(run: Run, line: Seq<char>, told: Option<nat>)
    requires
        trimmed(line) == "progress=end"@,
    ensures
        after_line(run, line, told, None).produced == run.produced,
        after_line(run, line, told, None).progress == FULL,
{
}

} // verus!
