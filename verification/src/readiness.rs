//! What still keeps a conversion from starting.

use vstd::prelude::*;

use crate::capabilities::FfmpegCapabilities;
use crate::text::{concat3, join, joined, push_str, push_string, strs};

verus! {

/// Something that keeps a conversion from starting.
#[derive(Clone, Debug, PartialEq)]
pub enum ConvertBlocker {
    NoRecording,
    NoPrefix,
    NoOutputFolder,
    FfmpegNotQueried,
    /// There is no ffmpeg; the text says more.
    FfmpegMissing(Option<String>),
}

/// The model of [`ConvertBlocker`].
#[verifier::ext_equal]
pub enum Blocker {
    NoRecording,
    NoPrefix,
    NoOutputFolder,
    FfmpegNotQueried,
    FfmpegMissing(Option<Seq<char>>),
}

impl View for ConvertBlocker {
    type V = Blocker;

    open spec fn view(&self) -> Blocker {
        match self {
            ConvertBlocker::NoRecording => Blocker::NoRecording,
            ConvertBlocker::NoPrefix => Blocker::NoPrefix,
            ConvertBlocker::NoOutputFolder => Blocker::NoOutputFolder,
            ConvertBlocker::FfmpegNotQueried => Blocker::FfmpegNotQueried,
            ConvertBlocker::FfmpegMissing(m) => Blocker::FfmpegMissing(
                match m {
                    Some(t) => Some(t@),
                    None => None,
                },
            ),
        }
    }
}

/// The blockers of a list.
pub open spec fn blockers_of(v: Seq<ConvertBlocker>) -> Seq<Blocker> {
    v.map_values(|b: ConvertBlocker| b@)
}

/// Whether a conversion can start, and what keeps it from that.
#[derive(Clone, Debug)]
pub struct ConvertReadiness {
    pub can_convert: bool,
    pub blockers: Vec<ConvertBlocker>,
}

/// One blocker where a condition holds.
pub open spec fn blocked_if(condition: bool, b: Blocker) -> Seq<Blocker> {
    if condition {
        seq![b]
    } else {
        seq![]
    }
}

/// What keeps a conversion from starting.
pub open spec fn expected_blockers(
    has_group: bool,
    prefix_empty: bool,
    folder_empty: bool,
    ffmpeg: Option<(bool, Option<Seq<char>>)>,
) -> Seq<Blocker> {
    blocked_if(!has_group, Blocker::NoRecording) + blocked_if(prefix_empty, Blocker::NoPrefix)
        + blocked_if(folder_empty, Blocker::NoOutputFolder) + match ffmpeg {
        None => seq![Blocker::FfmpegNotQueried],
        Some((has_ffmpeg, message)) => blocked_if(!has_ffmpeg, Blocker::FfmpegMissing(message)),
    }
}

/// Whether there is an ffmpeg, and what is told about it.
pub open spec fn ffmpeg_facts(caps: Option<&FfmpegCapabilities>) -> Option<(bool, Option<Seq<char>>)> {
    match caps {
        None => None,
        Some(c) => Some(
            (
                c.has_ffmpeg,
                match c.error_message {
                    Some(m) => Some(m@),
                    None => None,
                },
            ),
        ),
    }
}

fn push_blocker(list: &mut Vec<ConvertBlocker>, b: ConvertBlocker)
    ensures
        blockers_of(final(list)@) == blockers_of(old(list)@).push(b@),
{
    list.push(b);
    assert(blockers_of(list@) =~= blockers_of(old(list)@).push(b@));
}

/// Tells whether a conversion can start, and everything that keeps it from that.
pub fn evaluate_readiness(
    has_group: bool,
    prefix_empty: bool,
    output_folder_empty: bool,
    caps: Option<&FfmpegCapabilities>,
) -> (r: ConvertReadiness)
    ensures
        blockers_of(r.blockers@) == expected_blockers(
            has_group,
            prefix_empty,
            output_folder_empty,
            ffmpeg_facts(caps),
        ),
        r.can_convert == (r.blockers@.len() == 0),
{
    let mut blockers: Vec<ConvertBlocker> = Vec::new();
    assert(blockers_of(blockers@) =~= seq![]);
    if !has_group {
        push_blocker(&mut blockers, ConvertBlocker::NoRecording);
    }
    if prefix_empty {
        push_blocker(&mut blockers, ConvertBlocker::NoPrefix);
    }
    if output_folder_empty {
        push_blocker(&mut blockers, ConvertBlocker::NoOutputFolder);
    }
    match caps {
        None => {
            push_blocker(&mut blockers, ConvertBlocker::FfmpegNotQueried);
        },
        Some(c) => {
            if !c.has_ffmpeg {
                let message = match &c.error_message {
                    Some(m) => Some(m.clone()),
                    None => None,
                };
                push_blocker(&mut blockers, ConvertBlocker::FfmpegMissing(message));
            }
        },
    }
    assert(blockers_of(blockers@) =~= expected_blockers(
        has_group,
        prefix_empty,
        output_folder_empty,
        ffmpeg_facts(caps),
    ));
    ConvertReadiness { can_convert: blockers.len() == 0, blockers }
}

// ── Messages ───────────────────────────────────────────────────────────────

/// What the user is asked to do about a blocker.
pub open spec fn request_for(b: Blocker) -> Option<Seq<char>> {
    match b {
        Blocker::NoRecording => Some("select a recording"@),
        Blocker::NoPrefix => Some("set a filename prefix"@),
        Blocker::NoOutputFolder => Some("choose an output folder"@),
        _ => None,
    }
}

/// What is told about ffmpeg.
pub open spec fn ffmpeg_message(b: Blocker) -> Option<Seq<char>> {
    match b {
        Blocker::FfmpegNotQueried => Some("ffmpeg availability is being checked…"@),
        Blocker::FfmpegMissing(detail) => {
            let base =
                "ffmpeg is not available. Please install ffmpeg and ensure it is in your PATH."@;
            match detail {
                Some(text) => if text.len() > 0 {
                    Some(base + " ("@ + text + ")"@)
                } else {
                    Some(base)
                },
                None => Some(base),
            }
        },
        _ => None,
    }
}

/// The requests for the first `n` blockers.
pub open spec fn requests(list: Seq<Blocker>, n: int) -> Seq<Seq<char>>
    decreases n,
{
    if n <= 0 {
        seq![]
    } else {
        match request_for(list[n - 1]) {
            Some(text) => requests(list, n - 1).push(text),
            None => requests(list, n - 1),
        }
    }
}

/// What is told about ffmpeg for the first `n` blockers.
pub open spec fn ffmpeg_messages(list: Seq<Blocker>, n: int) -> Seq<Seq<char>>
    decreases n,
{
    if n <= 0 {
        seq![]
    } else {
        match ffmpeg_message(list[n - 1]) {
            Some(text) => ffmpeg_messages(list, n - 1).push(text),
            None => ffmpeg_messages(list, n - 1),
        }
    }
}

/// The parts of the message: one sentence with all requests, then what is told
/// about ffmpeg.
pub open spec fn message_parts(list: Seq<Blocker>) -> Seq<Seq<char>> {
    let asked = requests(list, list.len() as int);
    (if asked.len() > 0 {
        seq!["To convert, please "@ + joined(asked, ", "@) + "."@]
    } else {
        seq![]
    }) + ffmpeg_messages(list, list.len() as int)
}

fn request_text(b: &ConvertBlocker) -> (r: Option<&'static str>)
    ensures
        match r {
            Some(t) => request_for(b@) == Some(t@),
            None => request_for(b@) is None,
        },
{
    match b {
        ConvertBlocker::NoRecording => Some("select a recording"),
        ConvertBlocker::NoPrefix => Some("set a filename prefix"),
        ConvertBlocker::NoOutputFolder => Some("choose an output folder"),
        ConvertBlocker::FfmpegNotQueried => None,
        ConvertBlocker::FfmpegMissing(_) => None,
    }
}

fn ffmpeg_text(b: &ConvertBlocker) -> (r: Option<String>)
    ensures
        match r {
            Some(t) => ffmpeg_message(b@) == Some(t@),
            None => ffmpeg_message(b@) is None,
        },
{
    match b {
        ConvertBlocker::FfmpegNotQueried => Some(
            "ffmpeg availability is being checked…".to_string(),
        ),
        ConvertBlocker::FfmpegMissing(detail) => {
            let base = "ffmpeg is not available. Please install ffmpeg and ensure it is in your PATH.";
            match detail {
                Some(text) => {
                    if !text.as_str().is_empty() {
                        let mut out = concat3(base, " (", text.as_str());
                        out.append(")");
                        return Some(out);
                    }
                },
                None => {},
            }
            Some(base.to_string())
        },
        _ => None,
    }
}

/// Puts everything that keeps a conversion from starting into words.
pub fn format_blockers(blockers: &[ConvertBlocker]) -> (r: String)
    ensures
        r@ == joined(message_parts(blockers_of(blockers@)), " "@),
{
    let ghost list = blockers_of(blockers@);
    let n: usize = blockers.len();
    let mut asked: Vec<String> = Vec::new();
    let mut told: Vec<String> = Vec::new();
    let mut i: usize = 0;
    assert(strs(asked@) =~= seq![]);
    assert(strs(told@) =~= seq![]);
    while i < n
        invariant
            i <= n,
            n == blockers@.len(),
            list == blockers_of(blockers@),
            strs(asked@) == requests(list, i as int),
            strs(told@) == ffmpeg_messages(list, i as int),
        decreases n - i,
    {
        assert(list[i as int] == blockers@[i as int]@);
        match request_text(&blockers[i]) {
            Some(t) => {
                push_str(&mut asked, t);
            },
            None => {},
        }
        match ffmpeg_text(&blockers[i]) {
            Some(t) => {
                push_string(&mut told, t);
            },
            None => {},
        }
        i += 1;
    }
    let mut parts: Vec<String> = Vec::new();
    assert(strs(parts@) =~= seq![]);
    assert(strs(asked@).len() == asked@.len());
    if asked.len() > 0 {
        let all = join(&asked, ", ");
        push_string(&mut parts, concat3("To convert, please ", all.as_str(), "."));
    }
    let ghost head = strs(parts@);
    let ghost tail = told@;
    parts.append(&mut told);
    assert(strs(parts@) =~= head + strs(tail));
    assert(strs(parts@) =~= message_parts(list));
    join(&parts, " ")
}

/// A conversion can start exactly when a recording is chosen, a prefix and a
/// folder are given and ffmpeg is known to be there.
pub proof fn law_ready_when_nothing_blocks(
    has_group: bool,
    prefix_empty: bool,
    folder_empty: bool,
    ffmpeg: Option<(bool, Option<Seq<char>>)>,
)
    ensures
        expected_blockers(has_group, prefix_empty, folder_empty, ffmpeg).len() == 0 <==> has_group
            && !prefix_empty && !folder_empty && (ffmpeg matches Some((has_ffmpeg, _))
            && has_ffmpeg),
{
}

} // verus!
