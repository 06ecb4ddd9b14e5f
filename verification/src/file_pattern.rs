//! Finding recordings in a folder: which files belong together by their names.

use vstd::prelude::*;

use crate::paths::{
    file_name, file_name_of, file_stem, file_stem_of, folder_below, path_before, path_less,
    relative_dir,
};
use crate::regexes::{find_named_group, named_group_of_match};
use crate::settings::RecordingType;
use crate::text::{
    chars_of, concat3, ends_with, find_last, found_at, is_digit, lex_less, law_order_is_total,
    names, parse_u32, parsed_number, push_str, same, string_of, strs, text_less,
};

verus! {

// ── Naming patterns ────────────────────────────────────────────────────────

/// How a recorder names its files.
#[derive(Clone, Debug)]
pub struct FileNamingPattern {
    pub name: &'static str,
    pub description: &'static str,
    pub regex: &'static str,
    /// The group that files of one recording share.
    pub prefix_group: &'static str,
    /// The group with the number of the channel.
    pub channel_group: Option<&'static str>,
}

/// The model of [`FileNamingPattern`].
#[verifier::ext_equal]
pub struct Pattern {
    pub name: Seq<char>,
    pub description: Seq<char>,
    pub regex: Seq<char>,
    pub prefix_group: Seq<char>,
    pub channel_group: Option<Seq<char>>,
}

impl View for FileNamingPattern {
    type V = Pattern;

    open spec fn view(&self) -> Pattern {
        Pattern {
            name: self.name@,
            description: self.description@,
            regex: self.regex@,
            prefix_group: self.prefix_group@,
            channel_group: match self.channel_group {
                Some(g) => Some(g@),
                None => None,
            },
        }
    }
}

/// The patterns of a list.
pub open spec fn patterns_of(v: Seq<FileNamingPattern>) -> Seq<Pattern> {
    v.map_values(|p: FileNamingPattern| p@)
}

/// The pattern of Tascam recorders.
pub open spec fn tascam() -> Pattern {
    Pattern {
        name: "TASCAM"@,
        description: "Tascam Portacapture X8 — name prefix + S<channel>"@,
        regex: r"^(?P<prefix>.+?)S(?P<channel>\d+)$"@,
        prefix_group: "prefix"@,
        channel_group: Some("channel"@),
    }
}

/// The pattern of any file.
pub open spec fn any_file() -> Pattern {
    Pattern {
        name: "* (any)"@,
        description: "Any file — select files directly"@,
        regex: r"^.*$"@,
        prefix_group: "prefix"@,
        channel_group: None,
    }
}

/// The pattern of a camera.
pub open spec fn camera(name: Seq<char>, description: Seq<char>, regex: Seq<char>) -> Pattern {
    Pattern { name, description, regex, prefix_group: "prefix"@, channel_group: None }
}

/// The patterns of cameras.
pub open spec fn cameras() -> Seq<Pattern> {
    seq![
        camera(
            "Sony Handycam"@,
            "Sony Handycam — Cxxxx.MP4/MTS"@,
            r"^(?P<prefix>.*C\d{4}.*)\.(?:mp4|MP4|MTS|mts|M4V|m4v|)$"@,
        ),
        camera(
            "Sony FS100"@,
            "Sony FS100 — xxxxx.MTS"@,
            r"^(?P<prefix>.*\d{5}.*)\.(?:MTS|mts|M4V|m4v)$"@,
        ),
        camera(
            "Canon"@,
            "Canon — MVI_xxxx.MP4"@,
            r"^(?P<prefix>.*MVI_\d{4}.*)\.(?:mp4|MP4)$"@,
        ),
        camera(
            "Panasonic"@,
            "Panasonic — GHxxxxx.MP4"@,
            r"^(?P<prefix>.*GH\d{5}.*)\.(?:mp4|MP4)$"@,
        ),
        camera(
            "GoPro"@,
            "GoPro — GOPRxxxx/GPxxxxxx.MP4"@,
            r"^(?P<prefix>.*(?:GOPR\d{4}|GP\d{6}).*)\.(?:mp4|MP4)$"@,
        ),
    ]
}

/// The patterns that a folder can be searched with: Tascam recorders and any file.
pub fn builtin_patterns() -> (r: Vec<FileNamingPattern>)
    ensures
        patterns_of(r@) == seq![tascam(), any_file()],
        r@.len() == 2,
{
    let r: Vec<FileNamingPattern> = vec![
        FileNamingPattern {
            name: "TASCAM",
            description: "Tascam Portacapture X8 — name prefix + S<channel>",
            regex: r"^(?P<prefix>.+?)S(?P<channel>\d+)$",
            prefix_group: "prefix",
            channel_group: Some("channel"),
        },
        FileNamingPattern {
            name: "* (any)",
            description: "Any file — select files directly",
            regex: r"^.*$",
            prefix_group: "prefix",
            channel_group: None,
        },
    ];
    assert(patterns_of(r@) =~= seq![tascam(), any_file()]);
    r
}

/// The patterns of cameras.
pub fn camera_patterns() -> (r: Vec<FileNamingPattern>)
    ensures
        patterns_of(r@) == cameras(),
        r@.len() == 5,
{
    let r: Vec<FileNamingPattern> = vec![
        FileNamingPattern {
            name: "Sony Handycam",
            description: "Sony Handycam — Cxxxx.MP4/MTS",
            regex: r"^(?P<prefix>.*C\d{4}.*)\.(?:mp4|MP4|MTS|mts|M4V|m4v|)$",
            prefix_group: "prefix",
            channel_group: None,
        },
        FileNamingPattern {
            name: "Sony FS100",
            description: "Sony FS100 — xxxxx.MTS",
            regex: r"^(?P<prefix>.*\d{5}.*)\.(?:MTS|mts|M4V|m4v)$",
            prefix_group: "prefix",
            channel_group: None,
        },
        FileNamingPattern {
            name: "Canon",
            description: "Canon — MVI_xxxx.MP4",
            regex: r"^(?P<prefix>.*MVI_\d{4}.*)\.(?:mp4|MP4)$",
            prefix_group: "prefix",
            channel_group: None,
        },
        FileNamingPattern {
            name: "Panasonic",
            description: "Panasonic — GHxxxxx.MP4",
            regex: r"^(?P<prefix>.*GH\d{5}.*)\.(?:mp4|MP4)$",
            prefix_group: "prefix",
            channel_group: None,
        },
        FileNamingPattern {
            name: "GoPro",
            description: "GoPro — GOPRxxxx/GPxxxxxx.MP4",
            regex: r"^(?P<prefix>.*(?:GOPR\d{4}|GP\d{6}).*)\.(?:mp4|MP4)$",
            prefix_group: "prefix",
            channel_group: None,
        },
    ];
    assert(patterns_of(r@) =~= cameras());
    r
}

// ── Group keys ─────────────────────────────────────────────────────────────

/// A group as it is shown: its prefix, and its folder in parentheses.
pub open spec fn display_key(prefix: Seq<char>, rel_dir: Seq<char>) -> Seq<char> {
    if rel_dir.len() == 0 {
        prefix
    } else {
        prefix + " ("@ + rel_dir + ")"@
    }
}

/// A group as it is shown: its prefix, and its folder in parentheses.
pub fn group_display_key(prefix: &str, rel_dir: &str) -> (r: String)
    ensures
        r@ == display_key(prefix@, rel_dir@),
{
    if rel_dir.is_empty() {
        prefix.to_owned()
    } else {
        let mut out = concat3(prefix, " (", rel_dir);
        out.append(")");
        out
    }
}

/// `at` is the last place where ` (` stands in `key`.
pub open spec fn last_open(key: Seq<char>, at: int) -> bool {
    found_at(key, " ("@, at) && forall|k: int| at < k ==> !#[trigger] found_at(key, " ("@, k)
}

/// The parenthesis, among the first `i + 1` characters, that opens the outermost of
/// `depth` ones that are closed further right.
pub open spec fn opening(key: Seq<char>, i: int, depth: nat) -> Option<int>
    decreases i + 1,
{
    if i < 0 {
        None
    } else if key[i] == ')' {
        opening(key, i - 1, depth + 1)
    } else if key[i] == '(' && depth == 1 {
        Some(i)
    } else if key[i] == '(' && depth > 1 {
        opening(key, i - 1, (depth - 1) as nat)
    } else {
        opening(key, i - 1, depth)
    }
}

/// Where the parentheses at the end of a key are opened, behind a blank.
pub open spec fn end_opening(key: Seq<char>) -> Option<int> {
    if key.len() > 0 && key.last() == ')' {
        match opening(key, key.len() - 1, 0) {
            Some(q) => if q > 0 && key[q - 1] == ' ' {
                Some(q - 1)
            } else {
                None
            },
            None => None,
        }
    } else {
        None
    }
}

/// The prefix of a key that is shown: everything before the ` (` that its final `)`
/// closes. Where that closes none, everything before a last ` (...)`.
pub open spec fn is_key_prefix(key: Seq<char>, prefix: Seq<char>) -> bool {
    match end_opening(key) {
        Some(at) => prefix == key.take(at),
        None => if exists|at: int| #[trigger]
            last_open(key, at) && ")"@.is_suffix_of(key.skip(at + 2)) {
            exists|at: int| #[trigger]
                last_open(key, at) && ")"@.is_suffix_of(key.skip(at + 2)) && prefix == key.take(at)
        } else {
            prefix == key
        },
    }
}

fn find_end_opening(chars: &Vec<char>) -> (r: Option<usize>)
    ensures
        match r {
            Some(at) => end_opening(chars@) == Some(at as int) && at < chars@.len(),
            None => end_opening(chars@) is None,
        },
{
    let n: usize = chars.len();
    if n == 0 || chars[n - 1] != ')' {
        return None;
    }
    let mut left: usize = n;
    let mut depth: usize = 0;
    while left > 0
        invariant
            n == chars@.len(),
            n > 0,
            chars@.last() == ')',
            left <= n,
            depth <= n - left,
            opening(chars@, left - 1, depth as nat) == opening(chars@, n - 1, 0),
        decreases left,
    {
        let c: char = chars[left - 1];
        if c == ')' {
            depth += 1;
        } else if c == '(' {
            if depth == 1 {
                if left > 1 && chars[left - 2] == ' ' {
                    return Some(left - 2);
                }
                return None;
            }
            if depth > 1 {
                depth -= 1;
            }
        }
        left -= 1;
    }
    None
}

/// The prefix of a key that is shown. What stands in parentheses at its end is
/// left out.
pub fn group_key_prefix(key: &str) -> (r: String)
    ensures
        is_key_prefix(key@, r@),
{
    proof {
        reveal_strlit(" (");
    }
    let chars = chars_of(key);
    let n: usize = chars.len();
    if let Some(at) = find_end_opening(&chars) {
        let prefix = string_of(&chars, 0, at);
        assert(prefix@ =~= key@.take(at as int));
        return prefix;
    }
    match find_last(key, " (") {
        Some(at) => {
            let after = string_of(&chars, at + 2, n);
            assert(after@ =~= key@.skip(at + 2));
            assert(last_open(key@, at as int));
            assert forall|other: int| #[trigger] last_open(key@, other) implies other == at by {}
            if ends_with(after.as_str(), ")") {
                let prefix = string_of(&chars, 0, at);
                assert(prefix@ =~= key@.take(at as int));
                return prefix;
            }
            key.to_owned()
        },
        None => {
            assert forall|other: int| !#[trigger] last_open(key@, other) by {}
            key.to_owned()
        },
    }
}

/// The name that is proposed for an output.
pub fn default_output_filename(group_name: &str, container: &str) -> (r: String)
    ensures
        r@ == group_name@ + "-multi-audio-vid."@ + container@,
{
    concat3(group_name, "-multi-audio-vid.", container)
}

// ── Matches ────────────────────────────────────────────────────────────────

/// What a pattern found in a file's name.
#[derive(Clone, Debug)]
pub struct FileMatch {
    pub prefix: String,
    /// The channel; the largest number where there is none.
    pub channel: u32,
}

/// The model of [`FileMatch`].
#[verifier::ext_equal]
pub struct Found {
    pub prefix: Seq<char>,
    pub channel: u32,
}

/// The model of a match that may be there.
pub open spec fn found(m: Option<FileMatch>) -> Option<Found> {
    match m {
        Some(f) => Some(Found { prefix: f.prefix@, channel: f.channel }),
        None => None,
    }
}

/// The matches of a list.
pub open spec fn founds(v: Seq<Option<FileMatch>>) -> Seq<Option<Found>> {
    v.map_values(|m: Option<FileMatch>| found(m))
}

/// The channel that a group of digits tells.
pub open spec fn channel_number(group: Option<Option<Seq<char>>>) -> u32 {
    match group {
        Some(Some(text)) => match parsed_number(text, u32::MAX as nat) {
            Some(n) => n as u32,
            None => u32::MAX,
        },
        _ => u32::MAX,
    }
}

/// What a pattern finds in a name.
pub open spec fn found_in(p: Pattern, text: Seq<char>) -> Option<Found> {
    match named_group_of_match(p.regex, text, p.prefix_group) {
        None => None,
        Some(prefix) => Some(
            Found {
                prefix: match prefix {
                    Some(t) => t,
                    None => seq![],
                },
                channel: match p.channel_group {
                    Some(name) => channel_number(named_group_of_match(p.regex, text, name)),
                    None => u32::MAX,
                },
            },
        ),
    }
}

/// The channel that a group of digits tells; the largest number where it tells
/// none.
pub fn channel_of_group(group: &Option<Option<String>>) -> (r: u32)
    ensures
        r == channel_number(
            match group {
                Some(Some(t)) => Some(Some(t@)),
                Some(None) => Some(None),
                None => None,
            },
        ),
{
    match group {
        Some(Some(text)) => match parse_u32(text.as_str()) {
            Some(n) => n,
            None => u32::MAX,
        },
        _ => u32::MAX,
    }
}

/// What a pattern finds in a name.
pub fn match_name(pattern: &FileNamingPattern, text: &str) -> (r: Option<FileMatch>)
    ensures
        found(r) == found_in(pattern@, text@),
{
    match find_named_group(pattern.regex, text, pattern.prefix_group) {
        None => None,
        Some(group) => {
            let channel: u32 = match pattern.channel_group {
                Some(name) => {
                    let number = find_named_group(pattern.regex, text, name);
                    channel_of_group(&number)
                },
                None => u32::MAX,
            };
            let prefix = match group {
                Some(t) => t,
                None => String::new(),
            };
            assert(group is None ==> prefix@ =~= seq![]);
            Some(FileMatch { prefix, channel })
        },
    }
}

// ── Grouping ───────────────────────────────────────────────────────────────

/// Files in the order of their channels, files of one channel in the order in
/// which they came.
pub open spec fn placed(sorted: Seq<(u32, Seq<char>)>, item: (u32, Seq<char>)) -> Seq<
    (u32, Seq<char>),
>
    decreases sorted.len(),
{
    if sorted.len() == 0 || sorted.last().0 <= item.0 {
        sorted.push(item)
    } else {
        placed(sorted.drop_last(), item).push(sorted.last())
    }
}

/// A group of files: its folder, its prefix and its files by channel.
#[verifier::ext_equal]
pub struct Group {
    pub rel_dir: Seq<char>,
    pub prefix: Seq<char>,
    pub files: Seq<(u32, Seq<char>)>,
}

/// A group stands before another: by folder, then by prefix.
pub open spec fn group_before(rel: Seq<char>, prefix: Seq<char>, g: Group) -> bool {
    lex_less(rel, g.rel_dir) || (rel == g.rel_dir && lex_less(prefix, g.prefix))
}

/// The groups with one more file, which may open a new group.
pub open spec fn with_file(
    groups: Seq<Group>,
    rel: Seq<char>,
    prefix: Seq<char>,
    item: (u32, Seq<char>),
) -> Seq<Group>
    decreases groups.len(),
{
    if groups.len() == 0 || group_before(rel, prefix, groups[0]) {
        seq![Group { rel_dir: rel, prefix, files: seq![item] }] + groups
    } else if groups[0].rel_dir == rel && groups[0].prefix == prefix {
        seq![Group { files: placed(groups[0].files, item), ..groups[0] }] + groups.skip(1)
    } else {
        seq![groups[0]] + with_file(groups.skip(1), rel, prefix, item)
    }
}

/// The groups that the first `n` files make, without those that are taken.
pub open spec fn groups_upto(
    folder: Seq<char>,
    files: Seq<Seq<char>>,
    matches: Seq<Option<Found>>,
    taken: Seq<bool>,
    n: int,
) -> Seq<Group>
    decreases n,
{
    if n <= 0 {
        seq![]
    } else {
        let before = groups_upto(folder, files, matches, taken, n - 1);
        match matches[n - 1] {
            Some(m) => if taken[n - 1] {
                before
            } else {
                with_file(
                    before,
                    folder_below(folder, files[n - 1]),
                    m.prefix,
                    (m.channel, files[n - 1]),
                )
            },
            None => before,
        }
    }
}

/// The executable form of [`Group`].
struct GroupData {
    rel_dir: String,
    prefix: String,
    files: Vec<(u32, String)>,
}

spec fn items_of(v: Seq<(u32, String)>) -> Seq<(u32, Seq<char>)> {
    v.map_values(|f: (u32, String)| (f.0, f.1@))
}

spec fn group_of(g: GroupData) -> Group {
    Group { rel_dir: g.rel_dir@, prefix: g.prefix@, files: items_of(g.files@) }
}

spec fn groups_of(v: Seq<GroupData>) -> Seq<Group> {
    v.map_values(|g: GroupData| group_of(g))
}

fn place(files: &mut Vec<(u32, String)>, channel: u32, path: String)
    ensures
        items_of(final(files)@) == placed(items_of(old(files)@), (channel, path@)),
{
    let ghost all = items_of(files@);
    let ghost item = (channel, path@);
    let mut i: usize = files.len();
    assert(all.take(all.len() as int) =~= all);
    assert(all.skip(i as int) =~= seq![]);
    assert(placed(all.take(i as int), item) + all.skip(i as int) =~= placed(all, item));
    while i > 0 && files[i - 1].0 > channel
        invariant
            i <= files@.len(),
            all == items_of(files@),
            item == (channel, path@),
            placed(all.take(i as int), item) + all.skip(i as int) == placed(all, item),
        decreases i,
    {
        let ghost head = all.take(i as int);
        assert(head.last() == (files@[i - 1].0, files@[i - 1].1@));
        assert(head.drop_last() =~= all.take(i - 1));
        assert(placed(head, item) == placed(all.take(i - 1), item).push(head.last()));
        assert(placed(all.take(i - 1), item).push(head.last()) + all.skip(i as int) =~= placed(
            all.take(i - 1),
            item,
        ) + all.skip(i - 1));
        i -= 1;
    }
    let ghost head = all.take(i as int);
    if i > 0 {
        assert(head.last() == (files@[i - 1].0, files@[i - 1].1@));
    }
    assert(placed(head, item) == head.push(item));
    files.insert(i, (channel, path));
    assert(items_of(files@) =~= head.push(item) + all.skip(i as int));
}

fn find_group(groups: &Vec<GroupData>, rel: &str, prefix: &str) -> (r: (usize, bool))
    ensures
        r.0 <= groups@.len(),
        r.1 ==> r.0 < groups@.len() && groups@[r.0 as int].rel_dir@ == rel@
            && groups@[r.0 as int].prefix@ == prefix@,
        !r.1 ==> r.0 == groups@.len() || group_before(
            rel@,
            prefix@,
            groups_of(groups@)[r.0 as int],
        ),
        r.1 ==> !group_before(rel@, prefix@, groups_of(groups@)[r.0 as int]),
        forall|k: int|
            0 <= k < r.0 ==> !group_before(rel@, prefix@, #[trigger] groups_of(groups@)[k]) && !(
            groups_of(groups@)[k].rel_dir == rel@ && groups_of(groups@)[k].prefix == prefix@),
{
    let ghost all = groups_of(groups@);
    let mut i: usize = 0;
    while i < groups.len()
        invariant
            i <= groups@.len(),
            all == groups_of(groups@),
            forall|k: int|
                0 <= k < i ==> !group_before(rel@, prefix@, #[trigger] all[k]) && !(all[k].rel_dir
                    == rel@ && all[k].prefix == prefix@),
        decreases groups@.len() - i,
    {
        let g = &groups[i];
        assert(all[i as int] == group_of(*g));
        let same_dir = same(g.rel_dir.as_str(), rel);
        let same_prefix = same(g.prefix.as_str(), prefix);
        if same_dir && same_prefix {
            proof {
                law_order_is_total(rel@, g.rel_dir@);
                law_order_is_total(prefix@, g.prefix@);
            }
            return (i, true);
        }
        if text_less(rel, g.rel_dir.as_str()) || (same_dir && text_less(prefix, g.prefix.as_str())) {
            return (i, false);
        }
        i += 1;
    }
    (i, false)
}

proof fn lemma_with_file_at(
    groups: Seq<Group>,
    rel: Seq<char>,
    prefix: Seq<char>,
    item: (u32, Seq<char>),
    at: int,
)
    requires
        0 <= at <= groups.len(),
        forall|k: int|
            0 <= k < at ==> !group_before(rel, prefix, #[trigger] groups[k]) && !(groups[k].rel_dir
                == rel && groups[k].prefix == prefix),
    ensures
        with_file(groups, rel, prefix, item) == groups.take(at) + with_file(
            groups.skip(at),
            rel,
            prefix,
            item,
        ),
    decreases at,
{
    if at == 0 {
        assert(groups.skip(0) =~= groups);
        assert(groups.take(0) + with_file(groups, rel, prefix, item) =~= with_file(
            groups,
            rel,
            prefix,
            item,
        ));
    } else {
        let rest = groups.skip(1);
        assert(!group_before(rel, prefix, groups[0]));
        assert forall|k: int| 0 <= k < at - 1 implies !group_before(
            rel,
            prefix,
            #[trigger] rest[k],
        ) && !(rest[k].rel_dir == rel && rest[k].prefix == prefix) by {
            assert(rest[k] == groups[k + 1]);
        }
        lemma_with_file_at(rest, rel, prefix, item, at - 1);
        assert(rest.skip(at - 1) =~= groups.skip(at));
        assert(seq![groups[0]] + (rest.take(at - 1) + with_file(groups.skip(at), rel, prefix, item))
            =~= groups.take(at) + with_file(groups.skip(at), rel, prefix, item));
    }
}

fn add_file(groups: &mut Vec<GroupData>, rel: String, prefix: &str, channel: u32, path: &str)
    ensures
        groups_of(final(groups)@) == with_file(
            groups_of(old(groups)@),
            rel@,
            prefix@,
            (channel, path@),
        ),
{
    let ghost all = groups_of(groups@);
    let ghost item = (channel, path@);
    let (at, there) = find_group(groups, rel.as_str(), prefix);
    proof {
        lemma_with_file_at(all, rel@, prefix@, item, at as int);
    }
    let ghost rest = all.skip(at as int);
    if there {
        let mut g = groups.remove(at);
        let ghost before = group_of(g);
        assert(rest[0] == before);
        assert(all[at as int] == before);
        place(&mut g.files, channel, path.to_owned());
        let ghost now = group_of(g);
        groups.insert(at, g);
        assert(rest.skip(1) =~= all.skip(at + 1));
        assert(groups_of(groups@) =~= all.take(at as int) + (seq![now] + all.skip(at + 1)));
    } else {
        let files: Vec<(u32, String)> = vec![(channel, path.to_owned())];
        assert(items_of(files@) =~= seq![item]);
        let g = GroupData { rel_dir: rel, prefix: prefix.to_owned(), files };
        let ghost now = group_of(g);
        groups.insert(at, g);
        assert(at < all.len() ==> rest[0] == all[at as int]);
        assert(groups_of(groups@) =~= all.take(at as int) + (seq![now] + rest));
    }
}

fn gather(
    folder: &str,
    files: &Vec<String>,
    matches: &Vec<Option<FileMatch>>,
    taken: &Vec<bool>,
) -> (r: Vec<GroupData>)
    requires
        matches@.len() == files@.len(),
        taken@.len() == files@.len(),
    ensures
        groups_of(r@) == groups_upto(
            folder@,
            strs(files@),
            founds(matches@),
            taken@,
            files@.len() as int,
        ),
{
    let mut groups: Vec<GroupData> = Vec::new();
    let mut i: usize = 0;
    assert(groups_of(groups@) =~= seq![]);
    while i < files.len()
        invariant
            i <= files@.len(),
            matches@.len() == files@.len(),
            taken@.len() == files@.len(),
            groups_of(groups@) == groups_upto(
                folder@,
                strs(files@),
                founds(matches@),
                taken@,
                i as int,
            ),
        decreases files@.len() - i,
    {
        assert(strs(files@)[i as int] == files@[i as int]@);
        assert(founds(matches@)[i as int] == found(matches@[i as int]));
        match &matches[i] {
            Some(m) => {
                if !taken[i] {
                    let path = files[i].as_str();
                    let rel = relative_dir(folder, path);
                    add_file(&mut groups, rel, m.prefix.as_str(), m.channel, path);
                }
            },
            None => {},
        }
        i += 1;
    }
    groups
}

/// The paths of files by channel.
pub open spec fn paths_only(files: Seq<(u32, Seq<char>)>) -> Seq<Seq<char>> {
    files.map_values(|f: (u32, Seq<char>)| f.1)
}

fn copy_paths(files: &Vec<(u32, String)>) -> (r: Vec<String>)
    ensures
        strs(r@) == paths_only(items_of(files@)),
{
    let ghost wanted = paths_only(items_of(files@));
    let mut out: Vec<String> = Vec::new();
    let mut i: usize = 0;
    assert(strs(out@) =~= wanted.take(0));
    while i < files.len()
        invariant
            i <= files@.len(),
            wanted == paths_only(items_of(files@)),
            strs(out@) == wanted.take(i as int),
        decreases files@.len() - i,
    {
        push_str(&mut out, files[i].1.as_str());
        assert(wanted[i as int] == files@[i as int].1@);
        assert(wanted.take(i + 1) =~= wanted.take(i as int).push(wanted[i as int]));
        i += 1;
    }
    assert(wanted.take(i as int) =~= wanted);
    out
}

// ── One pattern ────────────────────────────────────────────────────────────

/// The files of a recording under the key that is shown.
#[derive(Clone, Debug)]
pub struct FileGroup {
    pub key: String,
    pub files: Vec<String>,
}

/// The keys and files of a list, in the order of the keys.
pub open spec fn keyed(v: Seq<FileGroup>) -> Seq<(Seq<char>, Seq<Seq<char>>)> {
    v.map_values(|g: FileGroup| (g.key@, strs(g.files@)))
}

/// A list in the order of its keys with one more entry. An entry of the same key
/// is replaced.
pub open spec fn with_entry(
    list: Seq<(Seq<char>, Seq<Seq<char>>)>,
    key: Seq<char>,
    files: Seq<Seq<char>>,
) -> Seq<(Seq<char>, Seq<Seq<char>>)>
    decreases list.len(),
{
    if list.len() == 0 || lex_less(key, list[0].0) {
        seq![(key, files)] + list
    } else if list[0].0 == key {
        seq![(key, files)] + list.skip(1)
    } else {
        seq![list[0]] + with_entry(list.skip(1), key, files)
    }
}

/// The first `n` groups under the keys that are shown.
pub open spec fn shown_groups(groups: Seq<Group>, n: int) -> Seq<(Seq<char>, Seq<Seq<char>>)>
    decreases n,
{
    if n <= 0 {
        seq![]
    } else {
        let g = groups[n - 1];
        with_entry(
            shown_groups(groups, n - 1),
            display_key(g.prefix, g.rel_dir),
            paths_only(g.files),
        )
    }
}

proof fn lemma_with_entry_at(
    list: Seq<(Seq<char>, Seq<Seq<char>>)>,
    key: Seq<char>,
    files: Seq<Seq<char>>,
    at: int,
)
    requires
        0 <= at <= list.len(),
        forall|k: int|
            0 <= k < at ==> !lex_less(key, (#[trigger] list[k]).0) && list[k].0 != key,
    ensures
        with_entry(list, key, files) == list.take(at) + with_entry(list.skip(at), key, files),
    decreases at,
{
    if at == 0 {
        assert(list.skip(0) =~= list);
        assert(list.take(0) + with_entry(list, key, files) =~= with_entry(list, key, files));
    } else {
        let rest = list.skip(1);
        assert(!lex_less(key, list[0].0));
        assert forall|k: int| 0 <= k < at - 1 implies !lex_less(key, (#[trigger] rest[k]).0)
            && rest[k].0 != key by {
            assert(rest[k] == list[k + 1]);
        }
        lemma_with_entry_at(rest, key, files, at - 1);
        assert(rest.skip(at - 1) =~= list.skip(at));
        assert(seq![list[0]] + (rest.take(at - 1) + with_entry(list.skip(at), key, files))
            =~= list.take(at) + with_entry(list.skip(at), key, files));
    }
}

fn put_entry(list: &mut Vec<FileGroup>, key: String, files: Vec<String>)
    ensures
        keyed(final(list)@) == with_entry(keyed(old(list)@), key@, strs(files@)),
{
    let ghost all = keyed(list@);
    let mut i: usize = 0;
    while i < list.len() && !same(list[i].key.as_str(), key.as_str()) && !text_less(
        key.as_str(),
        list[i].key.as_str(),
    )
        invariant
            i <= list@.len(),
            all == keyed(list@),
            forall|k: int|
                0 <= k < i ==> !lex_less(key@, (#[trigger] all[k]).0) && all[k].0 != key@,
        decreases list@.len() - i,
    {
        assert(all[i as int].0 == list@[i as int].key@);
        i += 1;
    }
    proof {
        lemma_with_entry_at(all, key@, strs(files@), i as int);
    }
    let ghost rest = all.skip(i as int);
    let ghost entry = (key@, strs(files@));
    if i < list.len() && same(list[i].key.as_str(), key.as_str()) {
        proof {
            assert(rest[0] == (list@[i as int].key@, strs(list@[i as int].files@)));
            law_order_is_total(key@, key@);
        }
        let _replaced = list.remove(i);
        list.insert(i, FileGroup { key, files });
        assert(rest.skip(1) =~= all.skip(i + 1));
        assert(keyed(list@) =~= all.take(i as int) + (seq![entry] + all.skip(i + 1)));
    } else {
        if i < list.len() {
            assert(rest[0] == (list@[i as int].key@, strs(list@[i as int].files@)));
        }
        list.insert(i, FileGroup { key, files });
        assert(keyed(list@) =~= all.take(i as int) + (seq![entry] + rest));
    }
}

/// Groups files by what was found in their names: one group for every folder and
/// prefix, its files by channel.
pub fn group_matches(folder: &str, files: &Vec<String>, matches: &Vec<Option<FileMatch>>) -> (r: Vec<
    FileGroup,
>)
    requires
        matches@.len() == files@.len(),
    ensures
        ({
            let groups = groups_upto(
                folder@,
                strs(files@),
                founds(matches@),
                Seq::new(files@.len(), |i: int| false),
                files@.len() as int,
            );
            keyed(r@) == shown_groups(groups, groups.len() as int)
        }),
{
    let n: usize = files.len();
    let taken = all_free(n);
    let groups = gather(folder, files, matches, &taken);
    let ghost models = groups_of(groups@);
    let total: usize = groups.len();
    let mut out: Vec<FileGroup> = Vec::new();
    let mut i: usize = 0;
    assert(keyed(out@) =~= seq![]);
    while i < total
        invariant
            i <= total,
            total == groups@.len(),
            models == groups_of(groups@),
            keyed(out@) == shown_groups(models, i as int),
        decreases total - i,
    {
        let g = &groups[i];
        assert(models[i as int] == group_of(*g));
        let key = group_display_key(g.prefix.as_str(), g.rel_dir.as_str());
        let paths = copy_paths(&g.files);
        put_entry(&mut out, key, paths);
        i += 1;
    }
    out
}

fn all_free(n: usize) -> (r: Vec<bool>)
    ensures
        r@ == Seq::new(n as nat, |i: int| false),
{
    let mut out: Vec<bool> = Vec::new();
    let mut i: usize = 0;
    while i < n
        invariant
            i <= n,
            out@ == Seq::new(i as nat, |i: int| false),
        decreases n - i,
    {
        out.push(false);
        i += 1;
        assert(out@ =~= Seq::new(i as nat, |i: int| false));
    }
    assert(out@ =~= Seq::new(n as nat, |i: int| false));
    out
}

/// What a pattern finds in the name of a file, which is its stem or its full name.
pub open spec fn found_in_file(p: Pattern, path: Seq<char>, by_stem: bool) -> Option<Found> {
    match (file_stem_of(path), file_name_of(path)) {
        (Some(stem), Some(name)) => found_in(
            p,
            if by_stem {
                stem
            } else {
                name
            },
        ),
        _ => None,
    }
}

/// What a pattern finds in the names of files.
pub open spec fn found_in_files(p: Pattern, files: Seq<Seq<char>>, by_stem: bool) -> Seq<
    Option<Found>,
> {
    files.map_values(|path: Seq<char>| found_in_file(p, path, by_stem))
}

fn match_files(pattern: &FileNamingPattern, files: &Vec<String>, by_stem: bool) -> (r: Vec<
    Option<FileMatch>,
>)
    ensures
        founds(r@) == found_in_files(pattern@, strs(files@), by_stem),
        r@.len() == files@.len(),
{
    let ghost wanted = found_in_files(pattern@, strs(files@), by_stem);
    let mut out: Vec<Option<FileMatch>> = Vec::new();
    let mut i: usize = 0;
    assert(founds(out@) =~= wanted.take(0));
    while i < files.len()
        invariant
            i <= files@.len(),
            out@.len() == i,
            wanted == found_in_files(pattern@, strs(files@), by_stem),
            founds(out@) == wanted.take(i as int),
        decreases files@.len() - i,
    {
        let path = files[i].as_str();
        assert(strs(files@)[i as int] == path@);
        let m = match file_stem(path) {
            Some(stem) => match file_name(path) {
                Some(name) => if by_stem {
                    match_name(pattern, stem.as_str())
                } else {
                    match_name(pattern, name.as_str())
                },
                None => None,
            },
            None => None,
        };
        let ghost before = founds(out@);
        out.push(m);
        assert(found(m) == wanted[i as int]);
        assert(founds(out@) =~= before.push(wanted[i as int]));
        assert(wanted.take(i + 1) =~= wanted.take(i as int).push(wanted[i as int]));
        i += 1;
    }
    assert(wanted.take(i as int) =~= wanted);
    out
}

/// Groups the files of a folder by one pattern: one group for every folder and
/// prefix, its files by channel. A pattern that is no regular expression finds
/// nothing.
pub fn match_files_to_groups(folder: &str, pattern: &FileNamingPattern, files: &Vec<String>) -> (r:
    Vec<FileGroup>)
    ensures
        ({
            let groups = groups_upto(
                folder@,
                strs(files@),
                found_in_files(pattern@, strs(files@), true),
                Seq::new(files@.len(), |i: int| false),
                files@.len() as int,
            );
            keyed(r@) == shown_groups(groups, groups.len() as int)
        }),
{
    let matches = match_files(pattern, files, true);
    group_matches(folder, files, &matches)
}

// ── Selected files ─────────────────────────────────────────────────────────

/// Paths in order with one more.
pub open spec fn path_placed(sorted: Seq<Seq<char>>, path: Seq<char>) -> Seq<Seq<char>>
    decreases sorted.len(),
{
    if sorted.len() == 0 || !path_before(path, sorted.last()) {
        sorted.push(path)
    } else {
        path_placed(sorted.drop_last(), path).push(sorted.last())
    }
}

/// The first `n` paths in the order of their components.
pub open spec fn paths_in_order(paths: Seq<Seq<char>>, n: int) -> Seq<Seq<char>>
    decreases n,
{
    if n <= 0 {
        seq![]
    } else {
        path_placed(paths_in_order(paths, n - 1), paths[n - 1])
    }
}

fn place_path(sorted: &mut Vec<String>, path: String)
    ensures
        strs(final(sorted)@) == path_placed(strs(old(sorted)@), path@),
{
    let ghost all = strs(sorted@);
    let mut i: usize = sorted.len();
    assert(all.take(all.len() as int) =~= all);
    assert(path_placed(all.take(i as int), path@) + all.skip(i as int) =~= path_placed(all, path@));
    while i > 0 && path_less(path.as_str(), sorted[i - 1].as_str())
        invariant
            i <= sorted@.len(),
            all == strs(sorted@),
            path_placed(all.take(i as int), path@) + all.skip(i as int) == path_placed(all, path@),
        decreases i,
    {
        let ghost head = all.take(i as int);
        assert(head.last() == sorted@[i - 1]@);
        assert(head.drop_last() =~= all.take(i - 1));
        assert(path_placed(head, path@) == path_placed(all.take(i - 1), path@).push(head.last()));
        assert(path_placed(all.take(i - 1), path@).push(head.last()) + all.skip(i as int)
            =~= path_placed(all.take(i - 1), path@) + all.skip(i - 1));
        i -= 1;
    }
    let ghost head = all.take(i as int);
    if i > 0 {
        assert(head.last() == sorted@[i - 1]@);
    }
    sorted.insert(i, path);
    assert(strs(sorted@) =~= head.push(path@) + all.skip(i as int));
}

/// Makes one group of files that the user has chosen: its files in order, under
/// the stem of the first. No files make no group.
pub fn wrap_user_selected_files(files: Vec<String>) -> (r: Vec<FileGroup>)
    ensures
        files@.len() == 0 ==> r@.len() == 0,
        files@.len() > 0 ==> {
            let sorted = paths_in_order(strs(files@), files@.len() as int);
            keyed(r@) == seq![
                (
                    match file_stem_of(sorted[0]) {
                        Some(stem) => stem,
                        None => "selected"@,
                    },
                    sorted,
                ),
            ]
        },
{
    let mut out: Vec<FileGroup> = Vec::new();
    if files.len() == 0 {
        return out;
    }
    let mut sorted: Vec<String> = Vec::new();
    let mut i: usize = 0;
    assert(strs(sorted@) =~= seq![]);
    while i < files.len()
        invariant
            i <= files@.len(),
            strs(sorted@) == paths_in_order(strs(files@), i as int),
            sorted@.len() == i,
        decreases files@.len() - i,
    {
        assert(strs(files@)[i as int] == files@[i as int]@);
        proof {
            lemma_path_placed_len(strs(sorted@), files@[i as int]@);
        }
        place_path(&mut sorted, files[i].clone());
        assert(strs(sorted@).len() == sorted@.len());
        i += 1;
    }
    assert(strs(sorted@)[0] == sorted@[0]@);
    let key = match file_stem(sorted[0].as_str()) {
        Some(stem) => stem,
        None => "selected".to_string(),
    };
    out.push(FileGroup { key, files: sorted });
    assert(keyed(out@) =~= seq![(key@, strs(sorted@))]);
    out
}

proof fn lemma_path_placed_len(sorted: Seq<Seq<char>>, path: Seq<char>)
    ensures
        path_placed(sorted, path).len() == sorted.len() + 1,
    decreases sorted.len(),
{
    if !(sorted.len() == 0 || !path_before(path, sorted.last())) {
        lemma_path_placed_len(sorted.drop_last(), path);
    }
}

// ── All patterns ───────────────────────────────────────────────────────────

/// A recording found in a folder.
#[derive(Clone, Debug)]
pub struct MatchedGroup {
    pub prefix: String,
    /// The folder below the one that was searched; empty for that folder itself.
    pub rel_dir: String,
    pub files: Vec<String>,
    pub pattern_name: &'static str,
    pub recording_type: RecordingType,
}

/// The model of [`MatchedGroup`].
#[verifier::ext_equal]
pub struct Recording {
    pub prefix: Seq<char>,
    pub rel_dir: Seq<char>,
    pub files: Seq<Seq<char>>,
    pub pattern_name: Seq<char>,
    pub recording_type: RecordingType,
}

impl View for MatchedGroup {
    type V = Recording;

    open spec fn view(&self) -> Recording {
        Recording {
            prefix: self.prefix@,
            rel_dir: self.rel_dir@,
            files: strs(self.files@),
            pattern_name: self.pattern_name@,
            recording_type: self.recording_type,
        }
    }
}

/// The recordings of a list.
pub open spec fn recordings(v: Seq<MatchedGroup>) -> Seq<Recording> {
    v.map_values(|g: MatchedGroup| g@)
}

/// Tascam recorders write audio, all others video.
pub open spec fn type_of(pattern: Seq<char>) -> RecordingType {
    if pattern == "TASCAM"@ {
        RecordingType::MultiTrackAudio
    } else {
        RecordingType::VideoClipSequence
    }
}

/// A group as a recording.
pub open spec fn as_recording(g: Group, pattern: Seq<char>) -> Recording {
    Recording {
        prefix: g.prefix,
        rel_dir: g.rel_dir,
        files: paths_only(g.files),
        pattern_name: pattern,
        recording_type: type_of(pattern),
    }
}

/// The files that are taken after a pattern has been tried.
pub open spec fn taken_after(taken: Seq<bool>, matches: Seq<Option<Found>>) -> Seq<bool> {
    Seq::new(taken.len(), |i: int| taken[i] || matches[i] is Some)
}

/// The files that are taken after the first `n` patterns.
pub open spec fn taken_upto(matches: Seq<Seq<Option<Found>>>, files: nat, n: int) -> Seq<bool>
    decreases n,
{
    if n <= 0 {
        Seq::new(files, |i: int| false)
    } else {
        taken_after(taken_upto(matches, files, n - 1), matches[n - 1])
    }
}

/// The recordings that the first `n` patterns find. A file belongs to the first
/// pattern that finds something in it.
pub open spec fn recordings_upto(
    folder: Seq<char>,
    files: Seq<Seq<char>>,
    names: Seq<Seq<char>>,
    matches: Seq<Seq<Option<Found>>>,
    n: int,
) -> Seq<Recording>
    decreases n,
{
    if n <= 0 {
        seq![]
    } else {
        let groups = groups_upto(
            folder,
            files,
            matches[n - 1],
            taken_upto(matches, files.len(), n - 1),
            files.len() as int,
        );
        recordings_upto(folder, files, names, matches, n - 1) + groups.map_values(
            |g: Group| as_recording(g, names[n - 1]),
        )
    }
}

/// A prefix without the digits at its end.
pub open spec fn without_number(prefix: Seq<char>) -> Seq<char>
    decreases prefix.len(),
{
    if prefix.len() > 0 && is_digit(prefix.last()) {
        without_number(prefix.drop_last())
    } else {
        prefix
    }
}

/// A video clip that continues the one before it: the same folder, and the same
/// prefix up to the number.
pub open spec fn continues(before: Recording, next: Recording) -> bool {
    &&& before.recording_type == RecordingType::VideoClipSequence
    &&& next.recording_type == RecordingType::VideoClipSequence
    &&& next.rel_dir == before.rel_dir
    &&& without_number(next.prefix) == without_number(before.prefix)
}

/// The first `n` recordings, clips that continue each other as one.
pub open spec fn merged_upto(all: Seq<Recording>, n: int) -> Seq<Recording>
    decreases n,
{
    if n <= 0 {
        seq![]
    } else {
        let before = merged_upto(all, n - 1);
        let next = all[n - 1];
        if before.len() > 0 && continues(before.last(), next) {
            before.drop_last().push(
                Recording { files: before.last().files + next.files, ..before.last() },
            )
        } else {
            before.push(next)
        }
    }
}

/// Clips that continue each other as one.
pub open spec fn merged(all: Seq<Recording>) -> Seq<Recording> {
    merged_upto(all, all.len() as int)
}

fn strip_number(prefix: &str) -> (r: String)
    ensures
        r@ == without_number(prefix@),
{
    let chars = chars_of(prefix);
    let mut n: usize = chars.len();
    assert(prefix@.take(n as int) =~= prefix@);
    while n > 0 && chars[n - 1] >= '0' && chars[n - 1] <= '9'
        invariant
            n <= chars@.len(),
            chars@ == prefix@,
            without_number(prefix@.take(n as int)) == without_number(prefix@),
        decreases n,
    {
        assert(prefix@.take(n as int).drop_last() =~= prefix@.take(n - 1));
        n -= 1;
    }
    let r = string_of(&chars, 0, n);
    assert(r@ =~= prefix@.take(n as int));
    r
}

fn does_continue(before: &MatchedGroup, next: &MatchedGroup) -> (r: bool)
    ensures
        r == continues(before@, next@),
{
    let a = strip_number(before.prefix.as_str());
    let b = strip_number(next.prefix.as_str());
    before.recording_type == RecordingType::VideoClipSequence && next.recording_type
        == RecordingType::VideoClipSequence && same(next.rel_dir.as_str(), before.rel_dir.as_str())
        && same(b.as_str(), a.as_str())
}

fn copy_list(list: &Vec<String>) -> (r: Vec<String>)
    ensures
        strs(r@) == strs(list@),
{
    let mut out: Vec<String> = Vec::new();
    let mut i: usize = 0;
    assert(strs(out@) =~= strs(list@).take(0));
    while i < list.len()
        invariant
            i <= list@.len(),
            strs(out@) == strs(list@).take(i as int),
        decreases list@.len() - i,
    {
        push_str(&mut out, list[i].as_str());
        assert(strs(list@).take(i + 1) =~= strs(list@).take(i as int).push(list@[i as int]@));
        i += 1;
    }
    assert(strs(list@).take(i as int) =~= strs(list@));
    out
}

/// Makes one recording of video clips that continue each other: they stand next
/// to each other, in the same folder, with the same prefix up to the number.
pub fn merge_consecutive(results: &Vec<MatchedGroup>) -> (r: Vec<MatchedGroup>)
    ensures
        recordings(r@) == merged(recordings(results@)),
{
    let ghost all = recordings(results@);
    let mut out: Vec<MatchedGroup> = Vec::new();
    let mut i: usize = 0;
    assert(recordings(out@) =~= seq![]);
    while i < results.len()
        invariant
            i <= results@.len(),
            all == recordings(results@),
            recordings(out@) == merged_upto(all, i as int),
        decreases results@.len() - i,
    {
        let next = &results[i];
        assert(all[i as int] == next@);
        let n: usize = out.len();
        let ghost before = recordings(out@);
        assert(before.len() == n);
        if n > 0 && does_continue(&out[n - 1], next) {
            assert(before.last() == out@[n - 1]@);
            match out.pop() {
                Some(mut group) => {
                    let ghost joined_files = strs(group.files@) + strs(next.files@);
                    let mut more = copy_list(&next.files);
                    let ghost added = more@;
                    let ghost own = group.files@;
                    group.files.append(&mut more);
                    assert(strs(group.files@) =~= strs(own) + strs(added));
                    let ghost model = group@;
                    assert(model == Recording { files: joined_files, ..before.last() });
                    out.push(group);
                    assert(recordings(out@) =~= before.drop_last().push(model));
                },
                None => {},
            }
        } else {
            if n > 0 {
                assert(before.last() == out@[n - 1]@);
            }
            let group = MatchedGroup {
                prefix: next.prefix.clone(),
                rel_dir: next.rel_dir.clone(),
                files: copy_list(&next.files),
                pattern_name: next.pattern_name,
                recording_type: next.recording_type,
            };
            assert(group@ == next@);
            out.push(group);
            assert(recordings(out@) =~= before.push(next@));
        }
        i += 1;
    }
    out
}

/// The names of patterns.
pub open spec fn pattern_names(v: Seq<FileNamingPattern>) -> Seq<Seq<char>> {
    v.map_values(|p: FileNamingPattern| p.name@)
}

/// What several patterns found.
pub open spec fn all_founds(v: Seq<Vec<Option<FileMatch>>>) -> Seq<Seq<Option<Found>>> {
    v.map_values(|m: Vec<Option<FileMatch>>| founds(m@))
}

fn push_recordings(results: &mut Vec<MatchedGroup>, groups: &Vec<GroupData>, name: &'static str)
    ensures
        recordings(final(results)@) == recordings(old(results)@) + groups_of(groups@).map_values(
            |g: Group| as_recording(g, name@),
        ),
{
    let ghost before = recordings(results@);
    let ghost wanted = groups_of(groups@).map_values(|g: Group| as_recording(g, name@));
    let mut i: usize = 0;
    assert(before + wanted.take(0) =~= before);
    while i < groups.len()
        invariant
            i <= groups@.len(),
            wanted == groups_of(groups@).map_values(|g: Group| as_recording(g, name@)),
            recordings(results@) == before + wanted.take(i as int),
        decreases groups@.len() - i,
    {
        let g = &groups[i];
        let recording_type = if same(name, "TASCAM") {
            RecordingType::MultiTrackAudio
        } else {
            RecordingType::VideoClipSequence
        };
        let found_group = MatchedGroup {
            prefix: g.prefix.clone(),
            rel_dir: g.rel_dir.clone(),
            files: copy_paths(&g.files),
            pattern_name: name,
            recording_type,
        };
        let ghost now = recordings(results@);
        assert(groups_of(groups@)[i as int] == group_of(*g));
        assert(found_group@ == wanted[i as int]);
        results.push(found_group);
        assert(recordings(results@) =~= now.push(wanted[i as int]));
        assert(before + wanted.take(i + 1) =~= (before + wanted.take(i as int)).push(
            wanted[i as int],
        ));
        i += 1;
    }
    assert(wanted.take(i as int) =~= wanted);
}

/// Groups files by what several patterns found in their names. A file belongs to
/// the first pattern that found something; video clips that continue each other
/// make one recording.
pub fn group_all(
    folder: &str,
    files: &Vec<String>,
    patterns: &Vec<FileNamingPattern>,
    matches: &Vec<Vec<Option<FileMatch>>>,
) -> (r: Vec<MatchedGroup>)
    requires
        matches@.len() == patterns@.len(),
        forall|k: int| 0 <= k < matches@.len() ==> (#[trigger] matches@[k])@.len() == files@.len(),
    ensures
        recordings(r@) == merged(
            recordings_upto(
                folder@,
                strs(files@),
                pattern_names(patterns@),
                all_founds(matches@),
                patterns@.len() as int,
            ),
        ),
{
    let n: usize = files.len();
    let ghost all = all_founds(matches@);
    let ghost titles = pattern_names(patterns@);
    let mut taken = all_free(n);
    let mut results: Vec<MatchedGroup> = Vec::new();
    let mut p: usize = 0;
    assert(recordings(results@) =~= seq![]);
    while p < patterns.len()
        invariant
            p <= patterns@.len(),
            n == files@.len(),
            matches@.len() == patterns@.len(),
            forall|k: int|
                0 <= k < matches@.len() ==> (#[trigger] matches@[k])@.len() == files@.len(),
            all == all_founds(matches@),
            titles == pattern_names(patterns@),
            taken@.len() == n,
            taken@ == taken_upto(all, n as nat, p as int),
            recordings(results@) == recordings_upto(
                folder@,
                strs(files@),
                titles,
                all,
                p as int,
            ),
        decreases patterns@.len() - p,
    {
        assert(all[p as int] == founds(matches@[p as int]@));
        assert(titles[p as int] == patterns@[p as int].name@);
        assert(strs(files@).len() == n);
        let groups = gather(folder, files, &matches[p], &taken);
        push_recordings(&mut results, &groups, patterns[p].name);
        let ghost before = taken@;
        let ghost now = taken_after(before, all[p as int]);
        let mut i: usize = 0;
        while i < n
            invariant
                i <= n,
                p < matches@.len(),
                matches@[p as int]@.len() == n,
                all == all_founds(matches@),
                before.len() == n,
                taken@.len() == n,
                now == taken_after(before, all[p as int]),
                forall|k: int| 0 <= k < i ==> #[trigger] taken@[k] == now[k],
                forall|k: int| i <= k < n ==> #[trigger] taken@[k] == before[k],
            decreases n - i,
        {
            assert(all[p as int][i as int] == found(matches@[p as int]@[i as int]));
            if matches[p][i].is_some() {
                taken[i] = true;
            }
            i += 1;
        }
        assert(taken@ =~= now);
        p += 1;
    }
    merge_consecutive(&results)
}

/// The patterns of recorders: Tascam first, then the cameras.
pub open spec fn recorder_patterns() -> Seq<Pattern> {
    seq![tascam()] + cameras()
}

/// What the recorder patterns find in files. Tascam recorders are known by the
/// stem of a name, cameras by the full name.
pub open spec fn recorder_founds(files: Seq<Seq<char>>) -> Seq<Seq<Option<Found>>> {
    Seq::new(
        recorder_patterns().len(),
        |k: int|
            found_in_files(
                recorder_patterns()[k],
                files,
                recorder_patterns()[k].name == "TASCAM"@,
            ),
    )
}

/// Groups the files of a folder by the patterns of all recorders.
pub fn match_files_all_patterns(folder: &str, files: &Vec<String>) -> (r: Vec<MatchedGroup>)
    ensures
        recordings(r@) == merged(
            recordings_upto(
                folder@,
                strs(files@),
                recorder_patterns().map_values(|p: Pattern| p.name),
                recorder_founds(strs(files@)),
                recorder_patterns().len() as int,
            ),
        ),
{
    let mut builtin = builtin_patterns();
    let ghost shown = patterns_of(builtin@);
    assert(shown[0] == builtin@[0]@);
    let mut patterns: Vec<FileNamingPattern> = Vec::new();
    patterns.push(builtin.swap_remove(0));
    let mut others = camera_patterns();
    let ghost cams = others@;
    patterns.append(&mut others);
    assert(patterns_of(patterns@) =~= recorder_patterns()) by {
        assert(patterns_of(cams) == cameras());
        assert forall|k: int| 1 <= k < 6 implies patterns_of(patterns@)[k]
            == recorder_patterns()[k] by {
            assert(patterns_of(cams)[k - 1] == cams[k - 1]@);
        }
    }
    let ghost wanted = recorder_founds(strs(files@));
    let mut matches: Vec<Vec<Option<FileMatch>>> = Vec::new();
    let mut p: usize = 0;
    assert(all_founds(matches@) =~= wanted.take(0));
    while p < patterns.len()
        invariant
            p <= patterns@.len(),
            patterns_of(patterns@) == recorder_patterns(),
            wanted == recorder_founds(strs(files@)),
            matches@.len() == p,
            forall|k: int|
                0 <= k < matches@.len() ==> (#[trigger] matches@[k])@.len() == files@.len(),
            all_founds(matches@) == wanted.take(p as int),
        decreases patterns@.len() - p,
    {
        let pattern = &patterns[p];
        assert(patterns_of(patterns@)[p as int] == pattern@);
        let by_stem = same(pattern.name, "TASCAM");
        let found_here = match_files(pattern, files, by_stem);
        let ghost before = all_founds(matches@);
        matches.push(found_here);
        assert(all_founds(matches@) =~= before.push(wanted[p as int]));
        assert(wanted.take(p + 1) =~= wanted.take(p as int).push(wanted[p as int]));
        p += 1;
    }
    assert(patterns_of(patterns@).len() == patterns@.len());
    assert(wanted.take(p as int) =~= wanted);
    assert(pattern_names(patterns@) =~= recorder_patterns().map_values(|p: Pattern| p.name)) by {
        assert forall|k: int| 0 <= k < patterns@.len() implies pattern_names(patterns@)[k]
            == recorder_patterns()[k].name by {
            assert(patterns_of(patterns@)[k] == patterns@[k]@);
        }
    }
    group_all(folder, files, &patterns, &matches)
}

// ── Laws ───────────────────────────────────────────────────────────────────

/// A file is in the group of a folder and a prefix.
pub open spec fn grouped_as(
    groups: Seq<Group>,
    rel: Seq<char>,
    prefix: Seq<char>,
    item: (u32, Seq<char>),
) -> bool {
    exists|k: int|
        0 <= k < groups.len() && (#[trigger] groups[k]).rel_dir == rel && groups[k].prefix == prefix
            && groups[k].files.contains(item)
}

proof fn lemma_placed(sorted: Seq<(u32, Seq<char>)>, item: (u32, Seq<char>), x: (u32, Seq<char>))
    ensures
        placed(sorted, item).contains(x) <==> sorted.contains(x) || x == item,
        placed(sorted, item).len() == sorted.len() + 1,
    decreases sorted.len(),
{
    let out = placed(sorted, item);
    if sorted.len() == 0 || sorted.last().0 <= item.0 {
        if sorted.contains(x) {
            let k = choose|k: int| 0 <= k < sorted.len() && sorted[k] == x;
            assert(out[k] == x);
        }
        assert(out[sorted.len() as int] == item);
    } else {
        let head = sorted.drop_last();
        let last = sorted.last();
        let inner = placed(head, item);
        lemma_placed(head, item, x);
        if sorted.contains(x) {
            let k = choose|k: int| 0 <= k < sorted.len() && sorted[k] == x;
            if k < head.len() {
                assert(head[k] == x);
                let m = choose|m: int| 0 <= m < inner.len() && inner[m] == x;
                assert(out[m] == x);
            } else {
                assert(out[inner.len() as int] == x);
            }
        }
        if x == item {
            let m = choose|m: int| 0 <= m < inner.len() && inner[m] == x;
            assert(out[m] == x);
        }
        if out.contains(x) {
            let k = choose|k: int| 0 <= k < out.len() && out[k] == x;
            if k < inner.len() {
                assert(inner[k] == x);
                if x != item {
                    let m = choose|m: int| 0 <= m < head.len() && head[m] == x;
                    assert(sorted[m] == x);
                }
            } else {
                assert(sorted[sorted.len() - 1] == x);
            }
        }
    }
}

proof fn lemma_grouped_cons(
    first: Group,
    rest: Seq<Group>,
    rel: Seq<char>,
    prefix: Seq<char>,
    x: (u32, Seq<char>),
)
    ensures
        grouped_as(seq![first] + rest, rel, prefix, x) <==> (first.rel_dir == rel && first.prefix
            == prefix && first.files.contains(x)) || grouped_as(rest, rel, prefix, x),
{
    let all = seq![first] + rest;
    if first.rel_dir == rel && first.prefix == prefix && first.files.contains(x) {
        assert(all[0] == first);
    }
    if grouped_as(rest, rel, prefix, x) {
        let k = choose|k: int|
            0 <= k < rest.len() && (#[trigger] rest[k]).rel_dir == rel && rest[k].prefix == prefix
                && rest[k].files.contains(x);
        assert(all[k + 1] == rest[k]);
    }
    if grouped_as(all, rel, prefix, x) {
        let k = choose|k: int|
            0 <= k < all.len() && (#[trigger] all[k]).rel_dir == rel && all[k].prefix == prefix
                && all[k].files.contains(x);
        if k > 0 {
            assert(rest[k - 1] == all[k]);
        }
    }
}

proof fn lemma_with_file(
    groups: Seq<Group>,
    rel: Seq<char>,
    prefix: Seq<char>,
    item: (u32, Seq<char>),
    r: Seq<char>,
    p: Seq<char>,
    x: (u32, Seq<char>),
)
    ensures
        grouped_as(with_file(groups, rel, prefix, item), r, p, x) <==> grouped_as(groups, r, p, x)
            || (r == rel && p == prefix && x == item),
    decreases groups.len(),
{
    if groups.len() == 0 || group_before(rel, prefix, groups[0]) {
        let fresh = Group { rel_dir: rel, prefix, files: seq![item] };
        lemma_grouped_cons(fresh, groups, r, p, x);
        assert(fresh.files.contains(x) <==> x == item) by {
            assert(fresh.files[0] == item);
        }
    } else {
        let rest = groups.skip(1);
        assert(groups =~= seq![groups[0]] + rest);
        lemma_grouped_cons(groups[0], rest, r, p, x);
        if groups[0].rel_dir == rel && groups[0].prefix == prefix {
            let grown = Group { files: placed(groups[0].files, item), ..groups[0] };
            lemma_grouped_cons(grown, rest, r, p, x);
            lemma_placed(groups[0].files, item, x);
        } else {
            lemma_with_file(rest, rel, prefix, item, r, p, x);
            lemma_grouped_cons(groups[0], with_file(rest, rel, prefix, item), r, p, x);
        }
    }
}

/// A file whose name matched and that was not taken yet is in the group of its
/// folder and prefix; no other file is in any group.
pub proof fn law_groups_hold_all_matches(
    folder: Seq<char>,
    files: Seq<Seq<char>>,
    matches: Seq<Option<Found>>,
    taken: Seq<bool>,
    n: int,
    rel: Seq<char>,
    prefix: Seq<char>,
    x: (u32, Seq<char>),
)
    requires
        0 <= n <= files.len(),
        matches.len() == files.len(),
        taken.len() == files.len(),
    ensures
        grouped_as(groups_upto(folder, files, matches, taken, n), rel, prefix, x) <==> exists|i: int|
            0 <= i < n && !(#[trigger] taken[i]) && matches[i] == Some(
                Found { prefix, channel: x.0 },
            ) && files[i] == x.1 && folder_below(folder, files[i]) == rel,
    decreases n,
{
    if n > 0 {
        law_groups_hold_all_matches(folder, files, matches, taken, n - 1, rel, prefix, x);
        let before = groups_upto(folder, files, matches, taken, n - 1);
        match matches[n - 1] {
            Some(m) => {
                if !taken[n - 1] {
                    lemma_with_file(
                        before,
                        folder_below(folder, files[n - 1]),
                        m.prefix,
                        (m.channel, files[n - 1]),
                        rel,
                        prefix,
                        x,
                    );
                    if rel == folder_below(folder, files[n - 1]) && prefix == m.prefix && x == (
                        m.channel,
                        files[n - 1],
                    ) {
                        assert(!taken[n - 1] && matches[n - 1] == Some(
                            Found { prefix, channel: x.0 },
                        ));
                    }
                }
            },
            None => {},
        }
    }
}

/// A file is taken by the first pattern that finds something in its name.
pub proof fn law_first_pattern_takes(matches: Seq<Seq<Option<Found>>>, files: nat, n: int, i: int)
    requires
        0 <= n <= matches.len(),
        0 <= i < files,
    ensures
        taken_upto(matches, files, n).len() == files,
        taken_upto(matches, files, n)[i] <==> exists|k: int|
            0 <= k < n && (#[trigger] matches[k])[i] is Some,
    decreases n,
{
    if n > 0 {
        law_first_pattern_takes(matches, files, n - 1, i);
        if exists|k: int| 0 <= k < n && (#[trigger] matches[k])[i] is Some {
            let k = choose|k: int| 0 <= k < n && (#[trigger] matches[k])[i] is Some;
            assert(matches[k][i] is Some);
        }
    }
}

/// The files of a group are in the order of their channels.
pub open spec fn by_channel(files: Seq<(u32, Seq<char>)>) -> bool {
    forall|i: int, j: int| 0 <= i <= j < files.len() ==> files[i].0 <= files[j].0
}

/// Placing a file keeps the order of channels.
pub proof fn law_placing_keeps_order(sorted: Seq<(u32, Seq<char>)>, item: (u32, Seq<char>))
    requires
        by_channel(sorted),
    ensures
        by_channel(placed(sorted, item)),
    decreases sorted.len(),
{
    let out = placed(sorted, item);
    if sorted.len() == 0 || sorted.last().0 <= item.0 {
        assert forall|i: int, j: int| 0 <= i <= j < out.len() implies out[i].0 <= out[j].0 by {
            if j == sorted.len() && i < j {
                assert(sorted[i].0 <= sorted[sorted.len() - 1].0);
            }
        }
    } else {
        let head = sorted.drop_last();
        let inner = placed(head, item);
        assert(by_channel(head)) by {
            assert forall|i: int, j: int| 0 <= i <= j < head.len() implies head[i].0 <= head[j].0 by {
                assert(sorted[i].0 <= sorted[j].0);
            }
        }
        law_placing_keeps_order(head, item);
        assert forall|i: int, j: int| 0 <= i <= j < out.len() implies out[i].0 <= out[j].0 by {
            if j == inner.len() && i < j {
                let x = inner[i];
                lemma_placed(head, item, x);
                assert(inner.contains(x));
                if x != item {
                    let m = choose|m: int| 0 <= m < head.len() && head[m] == x;
                    assert(sorted[m].0 <= sorted[sorted.len() - 1].0);
                }
            }
        }
    }
}

/// The parentheses among the first `i + 1` characters belong together in pairs, once
/// `depth` of them are taken with those that are closed further right.
pub open spec fn closes_all(s: Seq<char>, i: int, depth: nat) -> bool
    decreases i + 1,
{
    if i < 0 {
        depth == 0
    } else if s[i] == ')' {
        closes_all(s, i - 1, depth + 1)
    } else if s[i] == '(' {
        depth > 0 && closes_all(s, i - 1, (depth - 1) as nat)
    } else {
        closes_all(s, i - 1, depth)
    }
}

/// The parentheses of a text belong together in pairs.
pub open spec fn balanced(s: Seq<char>) -> bool {
    closes_all(s, s.len() - 1, 0)
}

proof fn lemma_opening_before(prefix: Seq<char>, rel_dir: Seq<char>, i: int, depth: nat)
    requires
        rel_dir.len() > 0,
        -1 <= i < rel_dir.len(),
        closes_all(rel_dir, i, depth),
    ensures
        opening(display_key(prefix, rel_dir), prefix.len() + 2 + i, depth + 1) == Some(
            prefix.len() as int + 1,
        ),
    decreases i + 1,
{
    reveal_strlit(" (");
    reveal_strlit(")");
    let key = display_key(prefix, rel_dir);
    if i < 0 {
        assert(key[prefix.len() as int + 1] == '(');
    } else {
        assert(key[prefix.len() + 2 + i] == rel_dir[i]);
        if rel_dir[i] == ')' {
            lemma_opening_before(prefix, rel_dir, i - 1, depth + 1);
        } else if rel_dir[i] == '(' {
            lemma_opening_before(prefix, rel_dir, i - 1, (depth - 1) as nat);
        } else {
            lemma_opening_before(prefix, rel_dir, i - 1, depth);
        }
    }
}

proof fn lemma_opening_is_one(key: Seq<char>, i: int, depth: nat)
    requires
        i < key.len(),
    ensures
        opening(key, i, depth) matches Some(q) ==> 0 <= q <= i && key[q] == '(',
    decreases i + 1,
{
    if i >= 0 {
        if key[i] == ')' {
            lemma_opening_is_one(key, i - 1, depth + 1);
        } else if key[i] == '(' && depth > 1 {
            lemma_opening_is_one(key, i - 1, (depth - 1) as nat);
        } else {
            lemma_opening_is_one(key, i - 1, depth);
        }
    }
}

/// The last ` (` of a key is the one before its folder, where the folder holds none.
proof fn lemma_last_open(prefix: Seq<char>, rel_dir: Seq<char>)
    requires
        rel_dir.len() > 0,
        !holds_open(rel_dir),
    ensures
        last_open(display_key(prefix, rel_dir), prefix.len() as int),
{
    reveal_strlit(" (");
    reveal_strlit(")");
    let key = display_key(prefix, rel_dir);
    let at = prefix.len() as int;
    let open = " ("@;
    assert(open.len() == 2 && open[0] == ' ' && open[1] == '(');
    assert(key.subrange(at, at + 2) =~= open);
    assert forall|k: int| at < k implies !#[trigger] found_at(key, open, k) by {
        if found_at(key, open, k) {
            assert(key.subrange(k, k + 2)[0] == ' ' && key.subrange(k, k + 2)[1] == '(');
            assert(key[k] == ' ' && key[k + 1] == '(');
            assert(key[at + 1] == '(');
            let j = k - at - 2;
            if j >= 0 && j + 2 <= rel_dir.len() {
                assert(rel_dir[j] == key[k] && rel_dir[j + 1] == key[k + 1]);
                assert(rel_dir.subrange(j, j + 2) =~= open);
                assert(found_at(rel_dir, open, j));
            } else if j + 1 == rel_dir.len() {
                assert(key[k + 1] == ')');
            }
        }
    }
}

/// Where the final parenthesis closes the one before the folder, those of the folder
/// belong together in pairs.
proof fn lemma_opening_exact(prefix: Seq<char>, rel_dir: Seq<char>, i: int, depth: nat)
    requires
        rel_dir.len() > 0,
        -1 <= i < rel_dir.len(),
        opening(display_key(prefix, rel_dir), prefix.len() + 2 + i, depth + 1) == Some(
            prefix.len() as int + 1,
        ),
    ensures
        closes_all(rel_dir, i, depth),
    decreases i + 1,
{
    reveal_strlit(" (");
    reveal_strlit(")");
    let key = display_key(prefix, rel_dir);
    let at = prefix.len() as int;
    if i < 0 {
        assert(key[at + 1] == '(');
        if depth > 0 {
            lemma_opening_is_one(key, at, depth);
        }
    } else {
        assert(key[at + 2 + i] == rel_dir[i]);
        if rel_dir[i] == ')' {
            lemma_opening_exact(prefix, rel_dir, i - 1, depth + 1);
        } else if rel_dir[i] == '(' {
            if depth > 0 {
                lemma_opening_exact(prefix, rel_dir, i - 1, (depth - 1) as nat);
            }
        } else {
            lemma_opening_exact(prefix, rel_dir, i - 1, depth);
        }
    }
}

/// A text holds ` (`.
pub open spec fn holds_open(s: Seq<char>) -> bool {
    exists|k: int| #[trigger] found_at(s, " ("@, k)
}

/// What holds ` (` holds a last one, not before any other.
proof fn lemma_last_exists(s: Seq<char>, k: int) -> (at: int)
    requires
        found_at(s, " ("@, k),
    ensures
        k <= at,
        last_open(s, at),
    decreases s.len() - k,
{
    if exists|j: int| k < j && #[trigger] found_at(s, " ("@, j) {
        let j = choose|j: int| k < j && #[trigger] found_at(s, " ("@, j);
        lemma_last_exists(s, j)
    } else {
        k
    }
}

/// The prefix can be told from the key that is shown. Without a folder it can unless
/// it ends like one. With a folder it can where the parentheses of the folder belong
/// together in pairs; and where the folder holds no ` (`, unless the final `)` closes
/// a ` (` of the prefix itself.
pub open spec fn key_tells_prefix(prefix: Seq<char>, rel_dir: Seq<char>) -> bool {
    if rel_dir.len() == 0 {
        prefix.len() == 0 || prefix.last() != ')' || !holds_open(prefix)
    } else {
        balanced(rel_dir) || !holds_open(rel_dir) && !(end_opening(
            display_key(prefix, rel_dir),
        ) matches Some(q) && q < prefix.len())
    }
}

/// The prefix of a group comes back from the key that is shown wherever the key tells
/// it, and nowhere else.
pub proof fn law_key_round_trip(prefix: Seq<char>, rel_dir: Seq<char>, got: Seq<char>)
    requires
        is_key_prefix(display_key(prefix, rel_dir), got),
    ensures
        got == prefix <==> key_tells_prefix(prefix, rel_dir),
{
    reveal_strlit(" (");
    reveal_strlit(")");
    let key = display_key(prefix, rel_dir);
    let at = prefix.len() as int;
    let open = " ("@;
    lemma_opening_is_one(key, key.len() - 1, 0);
    if let Some(q) = end_opening(key) {
        assert(key[q] == ' ' && key[q + 1] == '(');
        assert(key.subrange(q, q + 2) =~= open);
        assert(found_at(key, open, q));
        assert(key.take(q).len() == q);
    }
    assert forall|other: int| #[trigger] last_open(key, other) && key.last() == ')' implies ")"@.is_suffix_of(
        key.skip(other + 2),
    ) by {
        let tail = key.skip(other + 2);
        assert(key.subrange(other, other + 2)[1] == key[other + 1]);
        assert(tail.len() > 0);
        assert(tail.subrange(tail.len() - 1, tail.len() as int) =~= ")"@);
    }
    if rel_dir.len() == 0 {
        if key_tells_prefix(prefix, rel_dir) {
            assert forall|other: int| #[trigger] last_open(key, other) implies !")"@.is_suffix_of(
                key.skip(other + 2),
            ) by {
                let tail = key.skip(other + 2);
                if ")"@.is_suffix_of(tail) {
                    assert(tail.subrange(tail.len() - 1, tail.len() as int)[0] == ')');
                    assert(key.last() == ')');
                    assert(found_at(prefix, open, other));
                }
            }
        } else {
            let k = choose|k: int| #[trigger] found_at(prefix, open, k);
            let last = lemma_last_exists(key, k);
            assert(last_open(key, last));
        }
    } else {
        assert(key.last() == ')');
        assert(key[at] == ' ' && key[at + 1] == '(');
        assert(key.take(at) =~= prefix);
        assert(key.len() == at + 3 + rel_dir.len());
        assert(opening(key, key.len() - 1, 0) == opening(key, key.len() - 2, 1));
        assert(key.subrange(at, at + 2) =~= open);
        assert(found_at(key, open, at));
        if balanced(rel_dir) {
            lemma_opening_before(prefix, rel_dir, rel_dir.len() - 1, 0);
        } else {
            if end_opening(key) == Some(at) {
                lemma_opening_exact(prefix, rel_dir, rel_dir.len() - 1, 0);
            }
            if holds_open(rel_dir) {
                let k = choose|k: int| #[trigger] found_at(rel_dir, open, k);
                assert(rel_dir.subrange(k, k + 2)[0] == ' ' && rel_dir.subrange(k, k + 2)[1] == '(');
                assert(key.subrange(at + 2 + k, at + 4 + k) =~= open);
                assert(found_at(key, open, at + 2 + k));
                let last = lemma_last_exists(key, at + 2 + k);
                assert(last_open(key, last));
                if end_opening(key) is None {
                    let other = choose|other: int| #[trigger]
                        last_open(key, other) && ")"@.is_suffix_of(key.skip(other + 2)) && got
                            == key.take(other);
                    assert(other == last);
                    assert(got.len() == other);
                }
            } else {
                lemma_last_open(prefix, rel_dir);
                if end_opening(key) is None {
                    let other = choose|other: int| #[trigger]
                        last_open(key, other) && ")"@.is_suffix_of(key.skip(other + 2)) && got
                            == key.take(other);
                    assert(other == at);
                }
            }
        }
    }
}

} // verus!
