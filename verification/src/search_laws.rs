//! What looking round promises: which files a walk takes, which devices and encoders are
//! found to work, and what keeps a conversion from starting.

use vstd::prelude::*;

use crate::capabilities::{gathered, names_of_line, names_of_lines, HwDeviceCapabilities, Listing};
use crate::command_lines::holds;
use crate::hw_device::{
    after_trials, first_working, insert_by_number, node_number, option_args, render_nodes,
    stripped, trial_args, without,
};
use crate::offer_laws::law_numbers_are_read;
use crate::paths::joined_path;
use crate::readiness::{expected_blockers, Blocker};
use crate::scan::{
    after_entries, entries_in_order, entry_placed, turned, EntryKind, ScanState,
};
use crate::text::{law_order_is_total, lex_less};
use crate::text_laws::spells_number;
use crate::video_codecs::{CandidateModel, HwFramePath};

verus! {

// ── Walking folders ────────────────────────────────────────────────────────

/// An entry that a walk does not pass over: its name does not begin with a dot.
pub open spec fn is_shown(name: Seq<char>) -> bool {
    name.len() == 0 || name[0] != '.'
}

/// A walk takes the files of a folder, as many as there is room for, and puts its
/// folders on the list, one level deeper; it passes over hidden entries, links, and
/// folders that hold no recordings.
pub proof fn law_walk_takes_files(s: ScanState, sorted: Seq<(Seq<char>, EntryKind)>, n: int, path: Seq<char>)
    requires
        s.current is Some,
        0 <= n <= sorted.len(),
        s.files.len() + n <= 20_000,
    ensures
        ({
            let out = after_entries(s, sorted, n);
            let (folder, depth) = s.current->0;
            &&& out.current == s.current
            &&& s.files.is_prefix_of(out.files)
            &&& s.stack.is_prefix_of(out.stack)
            &&& out.files.len() <= s.files.len() + n
            &&& out.files.contains(path) <==> s.files.contains(path) || exists|i: int|
                0 <= i < n && is_shown((#[trigger] sorted[i]).0) && sorted[i].1 is File && path
                    == joined_path(folder, sorted[i].0)
            &&& out.stack.contains((path, depth + 1)) <==> s.stack.contains((path, depth + 1))
                || exists|i: int|
                {
                    &&& 0 <= i < n
                    &&& is_shown((#[trigger] sorted[i]).0)
                    &&& sorted[i].1 is Folder
                    &&& sorted[i].0 != "__MACOSX"@ && sorted[i].0 != "System Volume Information"@
                        && sorted[i].0 != "$RECYCLE.BIN"@ && sorted[i].0 != "LOST.DIR"@
                    &&& path == joined_path(folder, sorted[i].0)
                }
        }),
    decreases n,
{
    if n == 0 {
        assert(s.files.subrange(0, s.files.len() as int) =~= s.files);
        assert(s.stack.subrange(0, s.stack.len() as int) =~= s.stack);
    } else {
        law_walk_takes_files(s, sorted, n - 1, path);
        let before = after_entries(s, sorted, n - 1);
        let out = after_entries(s, sorted, n);
        let e = sorted[n - 1];
        let (folder, depth) = s.current->0;
        let file = joined_path(folder, e.0);
        if out.files != before.files {
            assert(out.files == before.files.push(file));
            lemma_push(before.files, file, path);
            assert(s.files =~= out.files.subrange(0, s.files.len() as int)) by {
                assert(s.files =~= before.files.subrange(0, s.files.len() as int));
            }
        }
        if out.stack != before.stack {
            assert(out.stack == before.stack.push((file, depth + 1)));
            lemma_push(before.stack, (file, depth + 1), (path, depth + 1));
            assert(s.stack =~= out.stack.subrange(0, s.stack.len() as int)) by {
                assert(s.stack =~= before.stack.subrange(0, s.stack.len() as int));
            }
        }
        assert(is_shown(e.0) == !crate::scan::is_hidden(e.0));
    }
}

proof fn lemma_push<A>(s: Seq<A>, x: A, y: A)
    ensures
        s.push(x).contains(y) <==> s.contains(y) || y == x,
{
    if s.contains(y) {
        let k = choose|k: int| 0 <= k < s.len() && s[k] == y;
        assert(s.push(x)[k] == y);
    }
    assert(s.push(x)[s.len() as int] == x);
}

/// The entries of a folder are looked at in the order of their names, all of them.
pub proof fn law_entries_in_order(all: Seq<(Seq<char>, EntryKind)>, n: int)
    requires
        0 <= n <= all.len(),
    ensures
        entries_in_order(all, n).to_multiset() == all.take(n).to_multiset(),
        forall|i: int|
            0 < i < entries_in_order(all, n).len() ==> !lex_less(
                (#[trigger] entries_in_order(all, n)[i]).0,
                entries_in_order(all, n)[i - 1].0,
            ),
    decreases n,
{
    if n > 0 {
        law_entries_in_order(all, n - 1);
        let before = entries_in_order(all, n - 1);
        let e = all[n - 1];
        lemma_entry_placed(before, e);
        assert(all.take(n) =~= all.take(n - 1).push(e));
        all.take(n - 1).to_multiset_ensures();
    } else {
        assert(all.take(0) =~= seq![]);
    }
}

proof fn lemma_entry_placed(sorted: Seq<(Seq<char>, EntryKind)>, e: (Seq<char>, EntryKind))
    requires
        forall|i: int|
            0 < i < sorted.len() ==> !lex_less((#[trigger] sorted[i]).0, sorted[i - 1].0),
    ensures
        ({
            let out = entry_placed(sorted, e);
            &&& out.len() == sorted.len() + 1
            &&& out.to_multiset() == sorted.to_multiset().insert(e)
            &&& forall|i: int| 0 < i < out.len() ==> !lex_less((#[trigger] out[i]).0, out[i - 1].0)
            &&& out.last() == e || (sorted.len() > 0 && out.last() == sorted.last())
        }),
    decreases sorted.len(),
{
    let out = entry_placed(sorted, e);
    sorted.to_multiset_ensures();
    if sorted.len() == 0 || !lex_less(e.0, sorted.last().0) {
        assert forall|i: int| 0 < i < out.len() implies !lex_less(
            (#[trigger] out[i]).0,
            out[i - 1].0,
        ) by {
            if i < sorted.len() {
                assert(!lex_less(sorted[i].0, sorted[i - 1].0));
            }
        }
    } else {
        let head = sorted.drop_last();
        let last = sorted.last();
        assert forall|i: int| 0 < i < head.len() implies !lex_less(
            (#[trigger] head[i]).0,
            head[i - 1].0,
        ) by {
            assert(!lex_less(sorted[i].0, sorted[i - 1].0));
        }
        lemma_entry_placed(head, e);
        let rest = entry_placed(head, e);
        head.to_multiset_ensures();
        rest.to_multiset_ensures();
        assert(sorted =~= head.push(last));
        assert(out.to_multiset() =~= sorted.to_multiset().insert(e)) by {
            assert(head.to_multiset().insert(e).insert(last) =~= head.to_multiset().insert(
                last,
            ).insert(e));
        }
        law_order_is_total(e.0, last.0);
        assert forall|i: int| 0 < i < out.len() implies !lex_less(
            (#[trigger] out[i]).0,
            out[i - 1].0,
        ) by {
            if i < rest.len() {
                assert(out[i] == rest[i] && out[i - 1] == rest[i - 1]);
            } else {
                assert(out[i] == last && out[i - 1] == rest.last());
                if rest.last() != e {
                    assert(!lex_less(
                        sorted[sorted.len() - 1].0,
                        sorted[sorted.len() - 2].0,
                    ));
                }
            }
        }
    }
}

/// The folder that is looked into next is the one that was put on the list last, of
/// those that lie no deeper than eight levels; a walk with room for more files ends only
/// where there is none.
pub proof fn law_next_folder(s: ScanState)
    requires
        s.files.len() < 20_000,
    ensures
        ({
            let t = turned(s);
            &&& t.files == s.files
            &&& match t.current {
                Some(f) => exists|k: int|
                    {
                        &&& 0 <= k < s.stack.len()
                        &&& #[trigger] s.stack[k] == f
                        &&& f.1 <= 8
                        &&& t.stack == s.stack.take(k)
                        &&& forall|j: int| k < j < s.stack.len() ==> (#[trigger] s.stack[j]).1 > 8
                    },
                None => forall|j: int|
                    0 <= j < s.stack.len() ==> (#[trigger] s.stack[j]).1 > 8,
            }
        }),
    decreases s.stack.len(),
{
    if s.stack.len() > 0 {
        let n = s.stack.len() - 1;
        let rest = ScanState { stack: s.stack.drop_last(), ..s };
        if s.stack.last().1 > 8 {
            law_next_folder(rest);
            let t = turned(s);
            if let Some(f) = t.current {
                let k = choose|k: int|
                    {
                        &&& 0 <= k < rest.stack.len()
                        &&& #[trigger] rest.stack[k] == f
                        &&& f.1 <= 8
                        &&& t.stack == rest.stack.take(k)
                        &&& forall|j: int|
                            k < j < rest.stack.len() ==> (#[trigger] rest.stack[j]).1 > 8
                    };
                assert(s.stack[k] == f);
                assert(rest.stack.take(k) =~= s.stack.take(k));
                assert forall|j: int| k < j < s.stack.len() implies (#[trigger] s.stack[j]).1
                    > 8 by {
                    if j < n {
                        assert(rest.stack[j] == s.stack[j]);
                    }
                }
            } else {
                assert forall|j: int| 0 <= j < s.stack.len() implies (#[trigger] s.stack[j]).1
                    > 8 by {
                    if j < n {
                        assert(rest.stack[j] == s.stack[j]);
                    }
                }
            }
        } else {
            assert(s.stack[n] == s.stack.last());
            assert(s.stack.take(n) =~= s.stack.drop_last());
        }
    }
}

// ── Devices ────────────────────────────────────────────────────────────────

/// The number of a render node is the one behind `renderD`.
pub proof fn law_node_number(digits: Seq<char>, n: int)
    requires
        spells_number(digits, n),
        0 <= n <= u32::MAX,
    ensures
        node_number("renderD"@ + digits) == n,
{
    reveal_strlit("renderD");
    let name = "renderD"@ + digits;
    assert("renderD"@.is_prefix_of(name)) by {
        assert(name.subrange(0, "renderD"@.len() as int) =~= "renderD"@);
    }
    assert(name.skip("renderD"@.len() as int) =~= digits);
    assert(!"renderD"@.is_prefix_of(digits)) by {
        if "renderD"@.is_prefix_of(digits) {
            assert("renderD"@.len() == 7 && "renderD"@[0] == 'r');
            assert("renderD"@ == digits.subrange(0, "renderD"@.len() as int));
            assert(digits.subrange(0, 7)[0] == digits[0]);
            assert(digits[0] == 'r');
            assert(48 <= digits[0] as int <= 57);
        }
    }
    assert(stripped(digits, "renderD"@) == digits);
    law_numbers_are_read(digits, n, u32::MAX as nat);
}

/// Render nodes are tried in the order of their numbers; no other name is.
pub proof fn law_nodes_in_order(all: Seq<Seq<char>>, n: int, name: Seq<char>)
    requires
        0 <= n <= all.len(),
    ensures
        render_nodes(all, n).contains(name) <==> "renderD"@.is_prefix_of(name) && all.take(
            n,
        ).contains(name),
        forall|i: int, j: int|
            0 <= i <= j < render_nodes(all, n).len() ==> node_number(render_nodes(all, n)[i])
                <= node_number(render_nodes(all, n)[j]),
    decreases n,
{
    if n > 0 {
        law_nodes_in_order(all, n - 1, name);
        let before = render_nodes(all, n - 1);
        let x = all[n - 1];
        assert(all.take(n) =~= all.take(n - 1).push(x));
        lemma_push(all.take(n - 1), x, name);
        if "renderD"@.is_prefix_of(x) {
            lemma_inserted_node(before, x, name);
        }
    }
}

proof fn lemma_inserted_node(s: Seq<Seq<char>>, x: Seq<char>, name: Seq<char>)
    requires
        forall|i: int, j: int| 0 <= i <= j < s.len() ==> node_number(s[i]) <= node_number(s[j]),
    ensures
        ({
            let out = insert_by_number(s, x);
            &&& out.len() == s.len() + 1
            &&& out.contains(name) <==> s.contains(name) || name == x
            &&& forall|i: int, j: int|
                0 <= i <= j < out.len() ==> node_number(out[i]) <= node_number(out[j])
            &&& forall|i: int|
                0 <= i < out.len() ==> node_number(#[trigger] out[i]) <= node_number(x) || (
                s.len() > 0 && node_number(out[i]) <= node_number(s.last()))
        }),
    decreases s.len(),
{
    let out = insert_by_number(s, x);
    if s.len() == 0 || node_number(s.last()) <= node_number(x) {
        lemma_push(s, x, name);
        assert forall|i: int, j: int| 0 <= i <= j < out.len() implies node_number(out[i])
            <= node_number(out[j]) by {
            if i < s.len() && j == s.len() {
                assert(node_number(s[i]) <= node_number(s[s.len() - 1]));
            }
        }
    } else {
        let head = s.drop_last();
        let last = s.last();
        assert forall|i: int, j: int| 0 <= i <= j < head.len() implies node_number(head[i])
            <= node_number(head[j]) by {
            assert(node_number(s[i]) <= node_number(s[j]));
        }
        lemma_inserted_node(head, x, name);
        let rest = insert_by_number(head, x);
        lemma_push(rest, last, name);
        lemma_push(head, last, name);
        assert(s =~= head.push(last));
        assert forall|i: int, j: int| 0 <= i <= j < out.len() implies node_number(out[i])
            <= node_number(out[j]) by {
            if j < rest.len() {
                assert(node_number(rest[i]) <= node_number(rest[j]));
            } else if i < rest.len() {
                assert(out[i] == rest[i] && out[j] == last);
                if head.len() > 0 {
                    assert(node_number(s[head.len() - 1]) <= node_number(s[head.len() as int]));
                }
            }
        }
        assert forall|i: int| 0 <= i < out.len() implies node_number(#[trigger] out[i])
            <= node_number(x) || (s.len() > 0 && node_number(out[i]) <= node_number(s.last())) by {
            if i < rest.len() {
                assert(out[i] == rest[i]);
                if head.len() > 0 {
                    assert(node_number(s[head.len() - 1]) <= node_number(s[head.len() as int]));
                }
            }
        }
    }
}

/// The device that is used is the first that works.
pub proof fn law_first_device_that_works(nodes: Seq<(String, bool)>)
    ensures
        match first_working(nodes) {
            Some(path) => exists|i: int|
                0 <= i < nodes.len() && (#[trigger] nodes[i]).1 && nodes[i].0@ == path && forall|
                    j: int,
                |
                    0 <= j < i ==> !(#[trigger] nodes[j]).1,
            None => forall|j: int| 0 <= j < nodes.len() ==> !(#[trigger] nodes[j]).1,
        },
    decreases nodes.len(),
{
    if nodes.len() > 0 && !nodes[0].1 {
        let rest = nodes.drop_first();
        law_first_device_that_works(rest);
        if let Some(path) = first_working(nodes) {
            let i = choose|i: int|
                0 <= i < rest.len() && (#[trigger] rest[i]).1 && rest[i].0@ == path && forall|j: int|
                    0 <= j < i ==> !(#[trigger] rest[j]).1;
            assert(nodes[i + 1] == rest[i]);
            assert forall|j: int| 0 <= j < i + 1 implies !(#[trigger] nodes[j]).1 by {
                if j > 0 {
                    assert(nodes[j] == rest[j - 1]);
                }
            }
        } else {
            assert forall|j: int| 0 <= j < nodes.len() implies !(#[trigger] nodes[j]).1 by {
                if j > 0 {
                    assert(nodes[j] == rest[j - 1]);
                }
            }
        }
    } else if nodes.len() > 0 {
        assert(nodes[0].1);
    }
}

/// A candidate is tried out: it uses hardware, and the device that it needs is known.
pub open spec fn is_tried(c: CandidateModel, hw: HwDeviceCapabilities) -> bool {
    &&& c.class is Hardware
    &&& c.hw_frames == Some(HwFramePath::Vaapi) ==> hw.vaapi_device is Some
    &&& c.hw_frames == Some(HwFramePath::Vulkan) ==> hw.vulkan_available
}

/// Of the encoders that ffmpeg has, those are struck out that were tried and did not
/// work, and no others.
pub proof fn law_failing_encoders_are_struck(
    candidates: Seq<CandidateModel>,
    encoders: Seq<Seq<char>>,
    hw: HwDeviceCapabilities,
    outcomes: Seq<bool>,
    n: int,
    name: Seq<char>,
)
    requires
        0 <= n <= candidates.len(),
        outcomes.len() == candidates.len(),
    ensures
        after_trials(candidates, encoders, hw, outcomes, n).contains(name) <==> {
            &&& encoders.contains(name)
            &&& forall|k: int|
                0 <= k < n && (#[trigger] candidates[k]).name == name && is_tried(
                    candidates[k],
                    hw,
                ) ==> outcomes[k]
        },
    decreases n,
{
    if n > 0 {
        law_failing_encoders_are_struck(candidates, encoders, hw, outcomes, n - 1, name);
        let before = after_trials(candidates, encoders, hw, outcomes, n - 1);
        let c = candidates[n - 1];
        lemma_without(before, c.name, before.len() as int, name);
        assert(before.take(before.len() as int) =~= before);
    }
}

proof fn lemma_without(list: Seq<Seq<char>>, struck: Seq<char>, n: int, name: Seq<char>)
    requires
        0 <= n <= list.len(),
    ensures
        without(list, struck, n).contains(name) <==> list.take(n).contains(name) && name != struck,
    decreases n,
{
    if n > 0 {
        lemma_without(list, struck, n - 1, name);
        assert(list.take(n) =~= list.take(n - 1).push(list[n - 1]));
        lemma_push(list.take(n - 1), list[n - 1], name);
        lemma_push(without(list, struck, n - 1), list[n - 1], name);
    }
}

/// An encoder is tried out on a short test picture that goes nowhere.
pub proof fn law_trial(encoder: Seq<char>, hw_frames: Option<HwFramePath>, device: Option<Seq<char>>)
    ensures
        holds(trial_args(encoder, hw_frames, device), seq!["-c:v"@, encoder]),
        holds(trial_args(encoder, hw_frames, device), seq!["-f"@, "null"@, "-"@]),
        holds(trial_args(encoder, hw_frames, device), seq!["-f"@, "lavfi"@, "-i"@]),
        hw_frames is Some ==> holds(
            trial_args(encoder, hw_frames, device),
            seq!["-vf"@, "format=nv12,hwupload"@],
        ),
        hw_frames is None ==> holds(
            trial_args(encoder, hw_frames, device),
            seq!["-vf"@, "format=yuv420p"@],
        ),
{
    let prelude = trial_prelude(hw_frames, device);
    let filter = if hw_frames is Some {
        "format=nv12,hwupload"@
    } else {
        "format=yuv420p"@
    };
    let all = crate::video_codecs::encoder_args(encoder);
    lemma_trial(
        seq!["-v"@, "error"@, "-nostdin"@],
        prelude,
        filter,
        encoder,
        option_args(all, all.len() as int),
    );
}

spec fn trial_prelude(hw_frames: Option<HwFramePath>, device: Option<Seq<char>>) -> Seq<Seq<char>> {
    match hw_frames {
        Some(HwFramePath::Vaapi) => crate::hw_device::device_args(
            "vaapi=vaapi0:"@ + match device {
                Some(d) => d,
                None => "/dev/dri/renderD128"@,
            },
            "vaapi0"@,
        ),
        Some(HwFramePath::Vulkan) => crate::hw_device::device_args("vulkan=vulkan0"@, "vulkan0"@),
        None => seq![],
    }
}

/// An encoder that takes its frames from a device is tried out on that device.
pub proof fn law_trial_names_device(encoder: Seq<char>, device: Seq<char>)
    ensures
        holds(
            trial_args(encoder, Some(HwFramePath::Vaapi), Some(device)),
            seq!["-init_hw_device"@, "vaapi=vaapi0:"@ + device, "-filter_hw_device"@, "vaapi0"@],
        ),
        holds(
            trial_args(encoder, Some(HwFramePath::Vulkan), Some(device)),
            seq!["-init_hw_device"@, "vulkan=vulkan0"@, "-filter_hw_device"@, "vulkan0"@],
        ),
{
    lemma_trial_prelude(encoder, Some(HwFramePath::Vaapi), Some(device));
    lemma_trial_prelude(encoder, Some(HwFramePath::Vulkan), Some(device));
}

proof fn lemma_trial_prelude(encoder: Seq<char>, hw_frames: Option<HwFramePath>, device: Option<Seq<char>>)
    ensures
        holds(trial_args(encoder, hw_frames, device), trial_prelude(hw_frames, device)),
{
    let filter = if hw_frames is Some {
        "format=nv12,hwupload"@
    } else {
        "format=yuv420p"@
    };
    let all = crate::video_codecs::encoder_args(encoder);
    lemma_trial(
        seq!["-v"@, "error"@, "-nostdin"@],
        trial_prelude(hw_frames, device),
        filter,
        encoder,
        option_args(all, all.len() as int),
    );
}

proof fn lemma_trial(
    head: Seq<Seq<char>>,
    prelude: Seq<Seq<char>>,
    filter: Seq<char>,
    encoder: Seq<char>,
    options: Seq<Seq<char>>,
)
    ensures
        ({
            let args = head + prelude + seq![
                "-f"@,
                "lavfi"@,
                "-i"@,
                "testsrc=size=160x120:rate=25:duration=0.08"@,
                "-vf"@,
                filter,
                "-c:v"@,
                encoder,
            ] + options + seq!["-f"@, "null"@, "-"@];
            &&& holds(args, prelude)
            &&& holds(args, seq!["-c:v"@, encoder])
            &&& holds(args, seq!["-vf"@, filter])
            &&& holds(args, seq!["-f"@, "null"@, "-"@])
            &&& holds(args, seq!["-f"@, "lavfi"@, "-i"@])
        }),
{
    let middle = seq![
        "-f"@,
        "lavfi"@,
        "-i"@,
        "testsrc=size=160x120:rate=25:duration=0.08"@,
        "-vf"@,
        filter,
        "-c:v"@,
        encoder,
    ];
    let tail = seq!["-f"@, "null"@, "-"@];
    let args = head + prelude + middle + options + tail;
    let a = head.len() as int;
    let b = a + prelude.len();
    let c = b + 8 + options.len();
    assert(args.subrange(a, a + prelude.len()) =~= prelude);
    assert(args.subrange(b, b + seq!["-f"@, "lavfi"@, "-i"@].len()) =~= seq!["-f"@, "lavfi"@, "-i"@]);
    assert(args.subrange(b + 4, b + 4 + seq!["-vf"@, filter].len()) =~= seq!["-vf"@, filter]);
    assert(args.subrange(b + 6, b + 6 + seq!["-c:v"@, encoder].len()) =~= seq!["-c:v"@, encoder]);
    assert(args.subrange(c, c + tail.len()) =~= tail);
}

// ── What ffmpeg has ────────────────────────────────────────────────────────

/// A listing holds the names of all its lines.
pub proof fn law_listing_holds_all_lines(lines: Seq<Seq<char>>, listing: Listing, n: int, name: Seq<char>)
    requires
        0 <= n <= lines.len(),
    ensures
        names_of_lines(lines, listing, n).contains(name) <==> exists|i: int|
            0 <= i < n && names_of_line(#[trigger] lines[i], listing).contains(name),
    decreases n,
{
    if n > 0 {
        law_listing_holds_all_lines(lines, listing, n - 1, name);
        let more = names_of_line(lines[n - 1], listing);
        let before = names_of_lines(lines, listing, n - 1);
        lemma_gathered(before, more, more.len() as int, name);
        assert(more.take(more.len() as int) =~= more);
        if names_of_lines(lines, listing, n).contains(name) {
            if more.contains(name) {
                assert(names_of_line(lines[n - 1], listing).contains(name));
            }
        }
    }
}

proof fn lemma_gathered(list: Seq<Seq<char>>, more: Seq<Seq<char>>, n: int, name: Seq<char>)
    requires
        0 <= n <= more.len(),
    ensures
        gathered(list, more, n).contains(name) <==> list.contains(name) || more.take(n).contains(
            name,
        ),
    decreases n,
{
    if n > 0 {
        lemma_gathered(list, more, n - 1, name);
        let before = gathered(list, more, n - 1);
        assert(more.take(n) =~= more.take(n - 1).push(more[n - 1]));
        lemma_push(more.take(n - 1), more[n - 1], name);
        lemma_push(before, more[n - 1], name);
        if before.contains(more[n - 1]) && name == more[n - 1] {
            assert(before.contains(name));
        }
    }
}

// ── What stands in the way ─────────────────────────────────────────────────

/// What keeps a conversion from starting is told, each thing that does and nothing else.
pub proof fn law_blockers(
    has_group: bool,
    prefix_empty: bool,
    folder_empty: bool,
    ffmpeg: Option<(bool, Option<Seq<char>>)>,
)
    ensures
        ({
            let all = expected_blockers(has_group, prefix_empty, folder_empty, ffmpeg);
            &&& all.contains(Blocker::NoRecording) <==> !has_group
            &&& all.contains(Blocker::NoPrefix) <==> prefix_empty
            &&& all.contains(Blocker::NoOutputFolder) <==> folder_empty
            &&& all.contains(Blocker::FfmpegNotQueried) <==> ffmpeg is None
            &&& ffmpeg matches Some((present, message)) ==> (all.contains(
                Blocker::FfmpegMissing(message),
            ) <==> !present)
        }),
{
    let a = crate::readiness::blocked_if(!has_group, Blocker::NoRecording);
    let b = crate::readiness::blocked_if(prefix_empty, Blocker::NoPrefix);
    let c = crate::readiness::blocked_if(folder_empty, Blocker::NoOutputFolder);
    let all = expected_blockers(has_group, prefix_empty, folder_empty, ffmpeg);
    if !has_group {
        assert(all[0] == Blocker::NoRecording);
    }
    if prefix_empty {
        assert(all[a.len() as int] == Blocker::NoPrefix);
    }
    if folder_empty {
        assert(all[(a.len() + b.len()) as int] == Blocker::NoOutputFolder);
    }
    let last = (a.len() + b.len() + c.len()) as int;
    if ffmpeg is None {
        assert(all[last] == Blocker::FfmpegNotQueried);
    }
    if let Some((present, message)) = ffmpeg {
        if !present {
            assert(all[last] == Blocker::FfmpegMissing(message));
        }
    }
}

} // verus!
