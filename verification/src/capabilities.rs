//! What an ffmpeg build and the machine it runs on can do.

use vstd::prelude::*;

use crate::text::{
    concat2, contains, list_contains, push_string, split, split_at, starts_with, strs, trim,
    trimmed, words, words_of,
};

verus! {

/// Hardware devices that initialise.
#[derive(Clone, Debug)]
pub struct HwDeviceCapabilities {
    /// The VAAPI render node that works.
    pub vaapi_device: Option<String>,
    /// Whether a Vulkan device works.
    pub vulkan_available: bool,
}

impl Default for HwDeviceCapabilities {
    /// No hardware device.
    fn default() -> (r: HwDeviceCapabilities)
        ensures
            r.vaapi_device is None,
            !r.vulkan_available,
    {
        HwDeviceCapabilities { vaapi_device: None, vulkan_available: false }
    }
}

/// What an ffmpeg build offers. The lists stand for sets.
#[derive(Clone, Debug)]
pub struct FfmpegCapabilities {
    pub has_ffmpeg: bool,
    pub available_encoders: Vec<String>,
    pub available_formats: Vec<String>,
    pub hw: HwDeviceCapabilities,
    pub error_message: Option<String>,
}

impl FfmpegCapabilities {
    /// The encoders, as a list of names.
    pub open spec fn encoders(self) -> Seq<Seq<char>> {
        strs(self.available_encoders@)
    }

    /// The container formats, as a list of names.
    pub open spec fn formats(self) -> Seq<Seq<char>> {
        strs(self.available_formats@)
    }
}

// ── ffmpeg's listings ──────────────────────────────────────────────────────

/// A listing that ffmpeg prints.
#[derive(Clone, Copy, Debug, PartialEq, Eq, Structural)]
pub enum Listing {
    /// `ffmpeg -encoders`: flags and a name on each line.
    Encoders,
    /// `ffmpeg -formats`: flags and names between commas on each line.
    Formats,
}

/// The flags of a line say that it lists something usable: a video or audio
/// encoder, or a format that can be written.
pub open spec fn flags_fit(flags: Seq<char>, listing: Listing) -> bool {
    match listing {
        Listing::Encoders => flags.len() > 0 && (flags[0] == 'V' || flags[0] == 'A'),
        Listing::Formats => flags.contains('E'),
    }
}

/// A line of the listing's heading.
pub open spec fn is_heading(line: Seq<char>) -> bool {
    ||| line.len() == 0
    ||| line[0] == '-'
    ||| "Encoders:"@.is_prefix_of(line)
    ||| "Formats:"@.is_prefix_of(line)
    ||| "File formats:"@.is_prefix_of(line)
}

/// The names that one line lists.
pub open spec fn names_of_line(line: Seq<char>, listing: Listing) -> Seq<Seq<char>> {
    let text = trimmed(line);
    let parts = words_of(text);
    if is_heading(text) || parts.len() < 2 || !flags_fit(parts[0], listing) {
        seq![]
    } else {
        split_at(parts[1], ',').map_values(|s: Seq<char>| trimmed(s))
    }
}

/// `more` added to a list, each name once.
pub open spec fn gathered(list: Seq<Seq<char>>, more: Seq<Seq<char>>, n: int) -> Seq<Seq<char>>
    decreases n,
{
    if n <= 0 {
        list
    } else {
        let before = gathered(list, more, n - 1);
        if before.contains(more[n - 1]) {
            before
        } else {
            before.push(more[n - 1])
        }
    }
}

/// The names that the first `n` lines list, each once.
pub open spec fn names_of_lines(lines: Seq<Seq<char>>, listing: Listing, n: int) -> Seq<Seq<char>>
    decreases n,
{
    if n <= 0 {
        seq![]
    } else {
        let more = names_of_line(lines[n - 1], listing);
        gathered(names_of_lines(lines, listing, n - 1), more, more.len() as int)
    }
}

/// The names that a listing holds, each once.
pub open spec fn listed_names(text: Seq<char>, listing: Listing) -> Seq<Seq<char>> {
    let lines = split_at(text, '\n');
    names_of_lines(lines, listing, lines.len() as int)
}

fn fits(flags: &str, listing: Listing) -> (r: bool)
    ensures
        r == flags_fit(flags@, listing),
{
    match listing {
        Listing::Encoders => {
            let chars = crate::text::chars_of(flags);
            chars.len() > 0 && (chars[0] == 'V' || chars[0] == 'A')
        },
        Listing::Formats => {
            let chars = crate::text::chars_of(flags);
            let mut i: usize = 0;
            while i < chars.len()
                invariant
                    i <= chars@.len(),
                    chars@ == flags@,
                    listing == Listing::Formats,
                    forall|k: int| 0 <= k < i ==> chars@[k] != 'E',
                decreases chars@.len() - i,
            {
                if chars[i] == 'E' {
                    return true;
                }
                i += 1;
            }
            false
        },
    }
}

fn heading(line: &str) -> (r: bool)
    ensures
        r == is_heading(line@),
{
    proof {
        reveal_strlit("-");
        assert("-"@ =~= seq!['-']);
        if line@.len() > 0 {
            if line@[0] == '-' {
                assert(line@.subrange(0, 1) =~= seq!['-']);
            }
            if "-"@.is_prefix_of(line@) {
                assert(line@.subrange(0, 1)[0] == '-');
            }
        }
    }
    line.is_empty() || starts_with(line, "-") || starts_with(line, "Encoders:") || starts_with(
        line,
        "Formats:",
    ) || starts_with(line, "File formats:")
}

fn line_names(line: &str, listing: Listing) -> (r: Vec<String>)
    ensures
        strs(r@) == names_of_line(line@, listing),
{
    let text = trim(line);
    let mut out: Vec<String> = Vec::new();
    assert(strs(out@) =~= seq![]);
    if heading(text.as_str()) {
        return out;
    }
    let parts = words(text.as_str());
    if parts.len() < 2 {
        return out;
    }
    assert(strs(parts@)[0] == parts@[0]@);
    assert(strs(parts@)[1] == parts@[1]@);
    if !fits(parts[0].as_str(), listing) {
        return out;
    }
    let pieces = split(parts[1].as_str(), ',');
    let ghost wanted = strs(pieces@).map_values(|s: Seq<char>| trimmed(s));
    let mut i: usize = 0;
    assert(wanted.take(0) =~= seq![]);
    while i < pieces.len()
        invariant
            i <= pieces@.len(),
            wanted == strs(pieces@).map_values(|s: Seq<char>| trimmed(s)),
            strs(out@) == wanted.take(i as int),
        decreases pieces@.len() - i,
    {
        push_string(&mut out, trim(pieces[i].as_str()));
        assert(wanted.take(i + 1) =~= wanted.take(i as int).push(trimmed(pieces@[i as int]@)));
        i += 1;
    }
    assert(wanted.take(i as int) =~= wanted);
    out
}

/// Reads a listing that ffmpeg printed.
pub fn parse_listing(text: &str, listing: Listing) -> (r: Vec<String>)
    ensures
        strs(r@) == listed_names(text@, listing),
{
    let lines = split(text, '\n');
    let ghost all = strs(lines@);
    let mut out: Vec<String> = Vec::new();
    let mut i: usize = 0;
    assert(strs(out@) =~= seq![]);
    while i < lines.len()
        invariant
            i <= lines@.len(),
            all == strs(lines@),
            strs(out@) == names_of_lines(all, listing, i as int),
        decreases lines@.len() - i,
    {
        assert(all[i as int] == lines@[i as int]@);
        let found = line_names(lines[i].as_str(), listing);
        let ghost before = strs(out@);
        let ghost more = strs(found@);
        let mut k: usize = 0;
        while k < found.len()
            invariant
                k <= found@.len(),
                more == strs(found@),
                strs(out@) == gathered(before, more, k as int),
            decreases found@.len() - k,
        {
            assert(more[k as int] == found@[k as int]@);
            if !list_contains(&out, found[k].as_str()) {
                push_string(&mut out, found[k].clone());
            }
            k += 1;
        }
        i += 1;
    }
    out
}

// ── Putting the answers together ───────────────────────────────────────────

/// How a run of `ffmpeg -version` ended.
#[derive(Clone, Debug)]
pub enum VersionRun {
    Succeeded,
    /// It ran and returned a non-zero exit status.
    Failed,
    /// It did not run; the text says why.
    NotFound(String),
}

/// What is told about a run of `ffmpeg -version` that did not succeed.
pub open spec fn version_error(run: VersionRun) -> Option<Seq<char>> {
    match run {
        VersionRun::Succeeded => None,
        VersionRun::Failed => Some("ffmpeg found but returned a non-zero exit status"@),
        VersionRun::NotFound(reason) => Some(
            "ffmpeg not found in PATH. Please install ffmpeg to use the converter. Error: "@
                + reason@,
        ),
    }
}

/// What an ffmpeg build can do, from its answers. Without a working ffmpeg
/// nothing is available; a listing that could not be had lists nothing.
pub fn capabilities_from(
    run: VersionRun,
    encoder_listing: Option<String>,
    format_listing: Option<String>,
    hw: HwDeviceCapabilities,
) -> (r: FfmpegCapabilities)
    ensures
        r.has_ffmpeg == run is Succeeded,
        match version_error(run) {
            Some(text) => r.error_message matches Some(m) && m@ == text,
            None => r.error_message is None,
        },
        r.encoders() == if run is Succeeded && encoder_listing is Some {
            listed_names(encoder_listing->0@, Listing::Encoders)
        } else {
            seq![]
        },
        r.formats() == if run is Succeeded && format_listing is Some {
            listed_names(format_listing->0@, Listing::Formats)
        } else {
            seq![]
        },
        run is Succeeded ==> r.hw == hw,
        !(run is Succeeded) ==> r.hw.vaapi_device is None && !r.hw.vulkan_available,
{
    let nothing: Vec<String> = Vec::new();
    assert(strs(nothing@) =~= seq![]);
    match run {
        VersionRun::Succeeded => {
            let available_encoders = match encoder_listing {
                Some(text) => parse_listing(text.as_str(), Listing::Encoders),
                None => Vec::new(),
            };
            let available_formats = match format_listing {
                Some(text) => parse_listing(text.as_str(), Listing::Formats),
                None => Vec::new(),
            };
            assert(encoder_listing is None ==> strs(available_encoders@) =~= seq![]);
            assert(format_listing is None ==> strs(available_formats@) =~= seq![]);
            FfmpegCapabilities {
                has_ffmpeg: true,
                available_encoders,
                available_formats,
                hw,
                error_message: None,
            }
        },
        VersionRun::Failed => FfmpegCapabilities {
            has_ffmpeg: false,
            available_encoders: nothing,
            available_formats: Vec::new(),
            hw: HwDeviceCapabilities::default(),
            error_message: Some("ffmpeg found but returned a non-zero exit status".to_string()),
        },
        VersionRun::NotFound(reason) => FfmpegCapabilities {
            has_ffmpeg: false,
            available_encoders: nothing,
            available_formats: Vec::new(),
            hw: HwDeviceCapabilities::default(),
            error_message: Some(
                concat2(
                    "ffmpeg not found in PATH. Please install ffmpeg to use the converter. Error: ",
                    reason.as_str(),
                ),
            ),
        },
    }
}

/// A name that a listing holds is held once.
pub proof fn law_listed_once(text: Seq<char>, listing: Listing)
    ensures
        listed_names(text, listing).no_duplicates(),
{
    let lines = split_at(text, '\n');
    lemma_lines_once(lines, listing, lines.len() as int);
}

proof fn lemma_lines_once(lines: Seq<Seq<char>>, listing: Listing, n: int)
    ensures
        names_of_lines(lines, listing, n).no_duplicates(),
    decreases n,
{
    if n > 0 {
        lemma_lines_once(lines, listing, n - 1);
        let more = names_of_line(lines[n - 1], listing);
        lemma_gathered_once(names_of_lines(lines, listing, n - 1), more, more.len() as int);
    }
}

proof fn lemma_gathered_once(list: Seq<Seq<char>>, more: Seq<Seq<char>>, n: int)
    requires
        list.no_duplicates(),
    ensures
        gathered(list, more, n).no_duplicates(),
    decreases n,
{
    if n > 0 {
        lemma_gathered_once(list, more, n - 1);
    }
}

} // verus!
