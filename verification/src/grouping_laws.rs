//! What grouping the files of a folder promises: which files belong together, in which
//! order, and which clips make one take.

use vstd::prelude::*;

use crate::file_pattern::{
    as_recording, by_channel, continues, display_key, group_before, groups_upto, law_placing_keeps_order,
    merged, merged_upto, path_placed, paths_in_order, paths_only, placed, recordings_upto,
    shown_groups, taken_upto, with_entry, with_file, without_number, Found, Group, Recording,
};
use crate::paths::{components_less, folder_below, full_components, path_before};
use crate::text::{is_digit, law_order_is_total, law_order_is_transitive, lex_less};

verus! {

// ── Takes ──────────────────────────────────────────────────────────────────

/// The files of the recordings `from..to`, one after the other.
pub open spec fn files_between(all: Seq<Recording>, from: int, to: int) -> Seq<Seq<char>>
    decreases to - from,
{
    if to <= from {
        seq![]
    } else {
        files_between(all, from, to - 1) + all[to - 1].files
    }
}

proof fn lemma_files_kept(all: Seq<Recording>, n: int)
    requires
        0 <= n <= all.len(),
    ensures
        files_between(merged_upto(all, n), 0, merged_upto(all, n).len() as int) == files_between(
            all,
            0,
            n,
        ),
    decreases n,
{
    if n > 0 {
        lemma_files_kept(all, n - 1);
        let before = merged_upto(all, n - 1);
        let now = merged_upto(all, n);
        let next = all[n - 1];
        let m = before.len() as int;
        if m > 0 && continues(before.last(), next) {
            lemma_same_files(before, now, m - 1);
            assert(files_between(now, 0, m) =~= files_between(now, 0, m - 1) + now[m - 1].files);
            assert(files_between(before, 0, m) =~= files_between(before, 0, m - 1)
                + before[m - 1].files);
            assert(files_between(now, 0, m) =~= files_between(before, 0, m) + next.files);
        } else {
            lemma_same_files(before, now, m);
            assert(files_between(now, 0, m + 1) =~= files_between(now, 0, m) + now[m].files);
        }
    }
}

proof fn lemma_same_files(a: Seq<Recording>, b: Seq<Recording>, n: int)
    requires
        0 <= n <= a.len(),
        n <= b.len(),
        forall|k: int| 0 <= k < n ==> a[k] == b[k],
    ensures
        files_between(a, 0, n) == files_between(b, 0, n),
    decreases n,
{
    if n > 0 {
        lemma_same_files(a, b, n - 1);
    }
}

/// Merging loses no file, adds none and changes no order: one after the other, the
/// files of the takes are the files of the recordings.
pub proof fn law_merging_keeps_files(all: Seq<Recording>)
    ensures
        files_between(merged(all), 0, merged(all).len() as int) == files_between(
            all,
            0,
            all.len() as int,
        ),
{
    lemma_files_kept(all, all.len() as int);
}

/// `stem` is a prefix without the number at its end.
pub open spec fn is_stem(prefix: Seq<char>, stem: Seq<char>) -> bool {
    &&& stem.is_prefix_of(prefix)
    &&& forall|i: int| stem.len() <= i < prefix.len() ==> '0' <= #[trigger] prefix[i] <= '9'
    &&& stem.len() > 0 ==> !('0' <= stem.last() <= '9')
}

/// The number at the end of a prefix is left out, and nothing else.
pub proof fn law_number_is_left_out(prefix: Seq<char>)
    ensures
        is_stem(prefix, without_number(prefix)),
    decreases prefix.len(),
{
    if prefix.len() > 0 && is_digit(prefix.last()) {
        let rest = prefix.drop_last();
        law_number_is_left_out(rest);
        let stem = without_number(prefix);
        assert(stem == rest.subrange(0, stem.len() as int));
        assert(stem =~= prefix.subrange(0, stem.len() as int));
        assert forall|i: int| stem.len() <= i < prefix.len() implies '0' <= #[trigger] prefix[i]
            <= '9' by {
            if i < rest.len() {
                assert(rest[i] == prefix[i]);
            }
        }
    } else {
        assert(prefix =~= prefix.subrange(0, prefix.len() as int));
    }
}

/// Two recordings are clips of one take: both are video, they lie in the same folder,
/// and their prefixes differ in the number at the end only.
pub open spec fn same_take(a: Recording, b: Recording) -> bool {
    &&& a.recording_type is VideoClipSequence
    &&& b.recording_type is VideoClipSequence
    &&& a.rel_dir == b.rel_dir
    &&& exists|stem: Seq<char>| #[trigger] is_stem(a.prefix, stem) && is_stem(b.prefix, stem)
}

proof fn lemma_one_stem(prefix: Seq<char>, a: Seq<char>, b: Seq<char>)
    requires
        is_stem(prefix, a),
        is_stem(prefix, b),
    ensures
        a == b,
{
    assert(a == prefix.subrange(0, a.len() as int));
    assert(b == prefix.subrange(0, b.len() as int));
    if a.len() < b.len() {
        assert(b.last() == prefix[b.len() - 1]);
    } else if b.len() < a.len() {
        assert(a.last() == prefix[a.len() - 1]);
    }
}

proof fn lemma_same_take(a: Recording, b: Recording)
    ensures
        continues(a, b) <==> same_take(a, b),
{
    law_number_is_left_out(a.prefix);
    law_number_is_left_out(b.prefix);
    if same_take(a, b) {
        let stem = choose|stem: Seq<char>|
            #[trigger] is_stem(a.prefix, stem) && is_stem(b.prefix, stem);
        lemma_one_stem(a.prefix, stem, without_number(a.prefix));
        lemma_one_stem(b.prefix, stem, without_number(b.prefix));
    }
}

/// Take `k` is made of the recordings from `bounds[k]` up to `bounds[k + 1]`: it has
/// the name, folder and kind of the first, and the files of all of them in order; each
/// of the others is a clip of the same take.
pub open spec fn is_take(all: Seq<Recording>, take: Recording, from: int, to: int) -> bool {
    &&& 0 <= from < to <= all.len()
    &&& take == Recording { files: files_between(all, from, to), ..all[from] }
    &&& forall|j: int| from < j < to ==> same_take(all[from], #[trigger] all[j])
}

/// The takes follow one another without a gap, and no take goes on in the next one.
pub open spec fn are_takes(all: Seq<Recording>, n: int, takes: Seq<Recording>, bounds: Seq<int>) -> bool {
    &&& bounds.len() == takes.len() + 1
    &&& bounds[0] == 0
    &&& bounds.last() == n
    &&& forall|k: int|
        0 <= k < takes.len() ==> is_take(all, #[trigger] takes[k], bounds[k], bounds[k + 1])
    &&& forall|k: int| 0 < k < takes.len() ==> !same_take(takes[k - 1], #[trigger] takes[k])
}

proof fn lemma_takes(all: Seq<Recording>, n: int) -> (bounds: Seq<int>)
    requires
        0 <= n <= all.len(),
    ensures
        are_takes(all, n, merged_upto(all, n), bounds),
    decreases n,
{
    if n == 0 {
        seq![0int]
    } else {
        let old_bounds = lemma_takes(all, n - 1);
        let before = merged_upto(all, n - 1);
        let now = merged_upto(all, n);
        let next = all[n - 1];
        let m = before.len() as int;
        if m > 0 {
            lemma_same_take(before.last(), next);
        }
        if m > 0 && continues(before.last(), next) {
            let bounds = old_bounds.drop_last().push(n);
            let from = old_bounds[m - 1];
            assert(is_take(all, before[m - 1], old_bounds[m - 1], old_bounds[m]));
            assert(old_bounds[m] == n - 1);
            assert(files_between(all, from, n) =~= files_between(all, from, n - 1) + next.files);
            let joined_take = now[m - 1];
            assert(same_take(all[from], next)) by {
                let stem = choose|stem: Seq<char>|
                    #[trigger] is_stem(before.last().prefix, stem) && is_stem(next.prefix, stem);
                assert(is_stem(all[from].prefix, stem));
            }
            assert(is_take(all, joined_take, from, n));
            assert forall|k: int| 0 <= k < now.len() implies is_take(
                all,
                #[trigger] now[k],
                bounds[k],
                bounds[k + 1],
            ) by {
                if k < m - 1 {
                    assert(now[k] == before[k]);
                    assert(is_take(all, before[k], old_bounds[k], old_bounds[k + 1]));
                }
            }
            assert forall|k: int| 0 < k < now.len() implies !same_take(now[k - 1], #[trigger] now[k]) by {
                assert(!same_take(before[k - 1], before[k]));
                assert(now[k - 1] == before[k - 1]);
                if k == m - 1 {
                    if same_take(now[k - 1], now[k]) {
                        let stem = choose|stem: Seq<char>|
                            #[trigger] is_stem(now[k - 1].prefix, stem) && is_stem(
                                now[k].prefix,
                                stem,
                            );
                        assert(is_stem(before[k - 1].prefix, stem) && is_stem(
                            before[k].prefix,
                            stem,
                        ));
                    }
                } else {
                    assert(now[k] == before[k]);
                }
            }
            bounds
        } else {
            let bounds = old_bounds.push(n);
            assert(old_bounds[m] == n - 1);
            assert(files_between(all, n - 1, n) =~= files_between(all, n - 1, n - 1) + next.files);
            assert(files_between(all, n - 1, n) =~= next.files);
            assert(is_take(all, next, n - 1, n));
            assert forall|k: int| 0 <= k < now.len() implies is_take(
                all,
                #[trigger] now[k],
                bounds[k],
                bounds[k + 1],
            ) by {
                if k < m {
                    assert(now[k] == before[k]);
                    assert(is_take(all, before[k], old_bounds[k], old_bounds[k + 1]));
                }
            }
            assert forall|k: int| 0 < k < now.len() implies !same_take(now[k - 1], #[trigger] now[k]) by {
                assert(now[k - 1] == before[k - 1]);
                if k < m {
                    assert(now[k] == before[k]);
                    assert(!same_take(before[k - 1], before[k]));
                }
            }
            bounds
        }
    }
}

/// Clips that follow one another make one take as long as they are clips of the same
/// take: each take holds the clips from its first on in their order, and the one behind
/// it belongs to another take.
pub proof fn law_clips_make_takes(all: Seq<Recording>)
    ensures
        exists|bounds: Seq<int>| #[trigger] are_takes(all, all.len() as int, merged(all), bounds),
{
    let bounds = lemma_takes(all, all.len() as int);
    assert(are_takes(all, all.len() as int, merged(all), bounds));
}

// ── Groups ─────────────────────────────────────────────────────────────────

/// A folder and prefix stand before another pair.
pub open spec fn key_before(a: Group, b: Group) -> bool {
    lex_less(a.rel_dir, b.rel_dir) || (a.rel_dir == b.rel_dir && lex_less(a.prefix, b.prefix))
}

/// Groups in the order of their folders and prefixes, each with its files in the order
/// of their channels.
pub open spec fn well_grouped(groups: Seq<Group>) -> bool {
    &&& forall|i: int, j: int|
        0 <= i < j < groups.len() ==> #[trigger] key_before(groups[i], groups[j])
    &&& forall|i: int|
        0 <= i < groups.len() ==> by_channel((#[trigger] groups[i]).files) && groups[i].files.len()
            > 0
}

proof fn lemma_key_transitive(a: Group, b: Group, c: Group)
    requires
        key_before(a, b),
        key_before(b, c),
    ensures
        key_before(a, c),
{
    if lex_less(a.rel_dir, b.rel_dir) && lex_less(b.rel_dir, c.rel_dir) {
        law_order_is_transitive(a.rel_dir, b.rel_dir, c.rel_dir);
    }
    if lex_less(a.prefix, b.prefix) && lex_less(b.prefix, c.prefix) {
        law_order_is_transitive(a.prefix, b.prefix, c.prefix);
    }
}

/// Where a file is put among those of its group: behind every file of a channel that is
/// not greater, before all others.
proof fn lemma_placed_at(sorted: Seq<(u32, Seq<char>)>, item: (u32, Seq<char>)) -> (at: int)
    requires
        by_channel(sorted),
    ensures
        0 <= at <= sorted.len(),
        placed(sorted, item) == sorted.insert(at, item),
        forall|k: int| 0 <= k < at ==> (#[trigger] sorted[k]).0 <= item.0,
        forall|k: int| at <= k < sorted.len() ==> (#[trigger] sorted[k]).0 > item.0,
    decreases sorted.len(),
{
    if sorted.len() == 0 || sorted.last().0 <= item.0 {
        assert(sorted.insert(sorted.len() as int, item) =~= sorted.push(item));
        assert forall|k: int| 0 <= k < sorted.len() implies (#[trigger] sorted[k]).0 <= item.0 by {
            assert(sorted[k].0 <= sorted[sorted.len() - 1].0);
        }
        sorted.len() as int
    } else {
        let head = sorted.drop_last();
        assert(by_channel(head)) by {
            assert forall|i: int, j: int| 0 <= i <= j < head.len() implies head[i].0 <= head[j].0 by {
                assert(sorted[i].0 <= sorted[j].0);
            }
        }
        let at = lemma_placed_at(head, item);
        assert(head.insert(at, item).push(sorted.last()) =~= sorted.insert(at, item));
        assert forall|k: int| 0 <= k < at implies (#[trigger] sorted[k]).0 <= item.0 by {
            assert(head[k] == sorted[k]);
        }
        assert forall|k: int| at <= k < sorted.len() implies (#[trigger] sorted[k]).0 > item.0 by {
            if k < head.len() {
                assert(head[k] == sorted[k]);
            }
        }
        at
    }
}

/// Two files of a group: the first stands before the second.
pub open spec fn stand_in_order(
    groups: Seq<Group>,
    rel: Seq<char>,
    prefix: Seq<char>,
    a: (u32, Seq<char>),
    b: (u32, Seq<char>),
) -> bool {
    exists|g: int, p: int, q: int|
        {
            &&& 0 <= g < groups.len()
            &&& groups[g].rel_dir == rel
            &&& groups[g].prefix == prefix
            &&& 0 <= p < q < groups[g].files.len()
            &&& #[trigger] groups[g].files[p] == a
            &&& #[trigger] groups[g].files[q] == b
        }
}

/// Adding a file: the groups stay in order, every group but its own stays as it is, and
/// its own gets the file in its place.
proof fn lemma_with_file_shape(
    groups: Seq<Group>,
    rel: Seq<char>,
    prefix: Seq<char>,
    item: (u32, Seq<char>),
) -> (r: (int, bool))
    requires
        well_grouped(groups),
    ensures
        ({
            let now = with_file(groups, rel, prefix, item);
            let (at, fresh) = r;
            &&& 0 <= at <= groups.len()
            &&& fresh ==> now == groups.insert(
                at,
                Group { rel_dir: rel, prefix, files: seq![item] },
            )
            &&& fresh ==> forall|k: int|
                0 <= k < at ==> #[trigger] key_before(
                    groups[k],
                    Group { rel_dir: rel, prefix, files: seq![item] },
                )
            &&& fresh && at < groups.len() ==> key_before(
                Group { rel_dir: rel, prefix, files: seq![item] },
                groups[at],
            )
            &&& !fresh ==> at < groups.len() && groups[at].rel_dir == rel && groups[at].prefix
                == prefix && now == groups.update(
                at,
                Group { files: placed(groups[at].files, item), ..groups[at] },
            )
        }),
    decreases groups.len(),
{
    let new_group = Group { rel_dir: rel, prefix, files: seq![item] };
    if groups.len() == 0 || group_before(rel, prefix, groups[0]) {
        assert(seq![new_group] + groups =~= groups.insert(0, new_group));
        (0, true)
    } else if groups[0].rel_dir == rel && groups[0].prefix == prefix {
        let grown = Group { files: placed(groups[0].files, item), ..groups[0] };
        assert(seq![grown] + groups.skip(1) =~= groups.update(0, grown));
        (0, false)
    } else {
        let rest = groups.skip(1);
        assert(well_grouped(rest)) by {
            assert forall|i: int, j: int| 0 <= i < j < rest.len() implies #[trigger] key_before(
                rest[i],
                rest[j],
            ) by {
                assert(key_before(groups[i + 1], groups[j + 1]));
            }
            assert forall|i: int| 0 <= i < rest.len() implies by_channel((#[trigger] rest[i]).files)
                && rest[i].files.len() > 0 by {
                assert(rest[i] == groups[i + 1]);
            }
        }
        law_order_is_total(rel, groups[0].rel_dir);
        law_order_is_total(prefix, groups[0].prefix);
        assert(key_before(groups[0], new_group));
        let (at, fresh) = lemma_with_file_shape(rest, rel, prefix, item);
        if fresh {
            assert(seq![groups[0]] + rest.insert(at, new_group) =~= groups.insert(
                at + 1,
                new_group,
            ));
            assert forall|k: int| 0 <= k < at + 1 implies #[trigger] key_before(
                groups[k],
                new_group,
            ) by {
                if k > 0 {
                    assert(key_before(rest[k - 1], new_group));
                }
            }
        } else {
            let grown = Group { files: placed(rest[at].files, item), ..rest[at] };
            assert(seq![groups[0]] + rest.update(at, grown) =~= groups.update(at + 1, grown));
        }
        (at + 1, fresh)
    }
}

proof fn lemma_well_grouped_step(
    groups: Seq<Group>,
    rel: Seq<char>,
    prefix: Seq<char>,
    item: (u32, Seq<char>),
)
    requires
        well_grouped(groups),
    ensures
        well_grouped(with_file(groups, rel, prefix, item)),
{
    let now = with_file(groups, rel, prefix, item);
    let (at, fresh) = lemma_with_file_shape(groups, rel, prefix, item);
    let new_group = Group { rel_dir: rel, prefix, files: seq![item] };
    if fresh {
        assert forall|i: int, j: int| 0 <= i < j < now.len() implies #[trigger] key_before(
            now[i],
            now[j],
        ) by {
            if j < at {
                assert(key_before(groups[i], groups[j]));
            } else if i > at {
                assert(key_before(groups[i - 1], groups[j - 1]));
            } else if i == at {
                if j - 1 > at {
                    assert(key_before(groups[at], groups[j - 1]));
                    lemma_key_transitive(new_group, groups[at], groups[j - 1]);
                }
            } else if j == at {
                assert(key_before(groups[i], new_group));
            } else {
                assert(key_before(groups[i], groups[j - 1]));
            }
        }
        assert forall|i: int| 0 <= i < now.len() implies by_channel((#[trigger] now[i]).files)
            && now[i].files.len() > 0 by {
            if i < at {
                assert(now[i] == groups[i]);
            } else if i > at {
                assert(now[i] == groups[i - 1]);
            }
        }
    } else {
        law_placing_keeps_order(groups[at].files, item);
        let k = lemma_placed_at(groups[at].files, item);
        assert forall|i: int, j: int| 0 <= i < j < now.len() implies #[trigger] key_before(
            now[i],
            now[j],
        ) by {
            assert(key_before(groups[i], groups[j]));
        }
        assert forall|i: int| 0 <= i < now.len() implies by_channel((#[trigger] now[i]).files)
            && now[i].files.len() > 0 by {
            if i != at {
                assert(now[i] == groups[i]);
            }
        }
    }
}

/// There is one group for every folder and prefix, in the order of folders and then of
/// prefixes; no group is empty, and its files are in the order of their channels.
pub proof fn law_groups_are_in_order(
    folder: Seq<char>,
    files: Seq<Seq<char>>,
    matches: Seq<Option<Found>>,
    taken: Seq<bool>,
    n: int,
)
    ensures
        well_grouped(groups_upto(folder, files, matches, taken, n)),
    decreases n,
{
    if n > 0 {
        law_groups_are_in_order(folder, files, matches, taken, n - 1);
        let before = groups_upto(folder, files, matches, taken, n - 1);
        if let Some(m) = matches[n - 1] {
            lemma_well_grouped_step(
                before,
                folder_below(folder, files[n - 1]),
                m.prefix,
                (m.channel, files[n - 1]),
            );
        }
    }
}

proof fn lemma_order_kept(
    groups: Seq<Group>,
    rel: Seq<char>,
    prefix: Seq<char>,
    item: (u32, Seq<char>),
    r: Seq<char>,
    p: Seq<char>,
    a: (u32, Seq<char>),
    b: (u32, Seq<char>),
)
    requires
        well_grouped(groups),
        stand_in_order(groups, r, p, a, b),
    ensures
        stand_in_order(with_file(groups, rel, prefix, item), r, p, a, b),
{
    let now = with_file(groups, rel, prefix, item);
    let (at, fresh) = lemma_with_file_shape(groups, rel, prefix, item);
    let (g, x, y) = choose|g: int, x: int, y: int|
        {
            &&& 0 <= g < groups.len()
            &&& groups[g].rel_dir == r
            &&& groups[g].prefix == p
            &&& 0 <= x < y < groups[g].files.len()
            &&& #[trigger] groups[g].files[x] == a
            &&& #[trigger] groups[g].files[y] == b
        };
    if fresh {
        let h = if g < at {
            g
        } else {
            g + 1
        };
        assert(now[h] == groups[g]);
        assert(now[h].files[x] == a && now[h].files[y] == b);
    } else if g == at {
        let k = lemma_placed_at(groups[at].files, item);
        let x2 = if x < k {
            x
        } else {
            x + 1
        };
        let y2 = if y < k {
            y
        } else {
            y + 1
        };
        assert(now[g].files[x2] == a && now[g].files[y2] == b);
    } else {
        assert(now[g] == groups[g]);
        assert(now[g].files[x] == a && now[g].files[y] == b);
    }
}

/// Two files of the same folder and prefix are in one group, in the order of their
/// channels; where those are the same, in the order in which they came.
pub proof fn law_files_by_channel(
    folder: Seq<char>,
    files: Seq<Seq<char>>,
    matches: Seq<Option<Found>>,
    taken: Seq<bool>,
    n: int,
    i: int,
    j: int,
    a: Found,
    b: Found,
)
    requires
        0 <= i < n <= files.len(),
        0 <= j < n,
        i != j,
        matches.len() == files.len(),
        taken.len() == files.len(),
        !taken[i] && !taken[j],
        matches[i] == Some(a),
        matches[j] == Some(b),
        a.prefix == b.prefix,
        folder_below(folder, files[i]) == folder_below(folder, files[j]),
        a.channel < b.channel || (a.channel == b.channel && i < j),
    ensures
        stand_in_order(
            groups_upto(folder, files, matches, taken, n),
            folder_below(folder, files[i]),
            a.prefix,
            (a.channel, files[i]),
            (b.channel, files[j]),
        ),
    decreases n,
{
    let before = groups_upto(folder, files, matches, taken, n - 1);
    let rel = folder_below(folder, files[i]);
    law_groups_are_in_order(folder, files, matches, taken, n - 1);
    if i < n - 1 && j < n - 1 {
        law_files_by_channel(folder, files, matches, taken, n - 1, i, j, a, b);
        if let Some(m) = matches[n - 1] {
            if !taken[n - 1] {
                lemma_order_kept(
                    before,
                    folder_below(folder, files[n - 1]),
                    m.prefix,
                    (m.channel, files[n - 1]),
                    rel,
                    a.prefix,
                    (a.channel, files[i]),
                    (b.channel, files[j]),
                );
            }
        }
    } else {
        // The last file joins the group in which the other one is.
        let last = n - 1;
        let other = if i == last {
            j
        } else {
            i
        };
        let own = if i == last {
            a
        } else {
            b
        };
        let theirs = if i == last {
            b
        } else {
            a
        };
        let item = (own.channel, files[last]);
        let there = (theirs.channel, files[other]);
        crate::file_pattern::law_groups_hold_all_matches(
            folder,
            files,
            matches,
            taken,
            n - 1,
            rel,
            a.prefix,
            there,
        );
        assert(!taken[other] && matches[other] == Some(
            Found { prefix: a.prefix, channel: there.0 },
        ));
        let (at, fresh) = lemma_with_file_shape(before, rel, a.prefix, item);
        let g = choose|g: int|
            0 <= g < before.len() && (#[trigger] before[g]).rel_dir == rel && before[g].prefix
                == a.prefix && before[g].files.contains(there);
        let x = choose|x: int| 0 <= x < before[g].files.len() && before[g].files[x] == there;
        law_order_is_total(rel, rel);
        law_order_is_total(a.prefix, a.prefix);
        if fresh {
            let new_group = Group { rel_dir: rel, prefix: a.prefix, files: seq![item] };
            if g < at {
                assert(key_before(before[g], new_group));
            } else {
                if g > at {
                    assert(key_before(before[at], before[g]));
                    lemma_key_transitive(new_group, before[at], before[g]);
                }
                assert(key_before(new_group, before[g]));
            }
            assert(false);
        } else {
            if g < at {
                assert(key_before(before[g], before[at]));
            } else if at < g {
                assert(key_before(before[at], before[g]));
            }
            assert(g == at);
            let k = lemma_placed_at(before[at].files, item);
            let now = with_file(before, rel, a.prefix, item);
            assert(before[g].files[x].0 == there.0);
            let x2 = if x < k {
                x
            } else {
                x + 1
            };
            assert(now[g].files[x2] == there);
            assert(now[g].files[k] == item);
        }
    }
}

// ── Keys ───────────────────────────────────────────────────────────────────

proof fn lemma_with_entry(
    list: Seq<(Seq<char>, Seq<Seq<char>>)>,
    key: Seq<char>,
    files: Seq<Seq<char>>,
    x: (Seq<char>, Seq<Seq<char>>),
)
    requires
        keys_ascend(list),
    ensures
        keys_ascend(with_entry(list, key, files)),
        with_entry(list, key, files).contains(x) <==> x == (key, files) || (list.contains(x) && x.0
            != key),
        forall|k: int|
            0 <= k < with_entry(list, key, files).len() ==> (#[trigger] with_entry(
                list,
                key,
                files,
            )[k]).0 == key || exists|m: int|
                0 <= m < list.len() && (#[trigger] list[m]).0 == with_entry(list, key, files)[k].0,
    decreases list.len(),
{
    let now = with_entry(list, key, files);
    law_order_is_total(key, key);
    if list.len() == 0 || lex_less(key, list[0].0) {
        assert forall|i: int, j: int| 0 <= i < j < now.len() implies lex_less(now[i].0, now[j].0) by {
            if i > 0 {
                assert(lex_less(list[i - 1].0, list[j - 1].0));
            } else if j > 1 {
                assert(lex_less(list[0].0, list[j - 1].0));
                law_order_is_transitive(key, list[0].0, list[j - 1].0);
            }
        }
        assert(now[0] == (key, files));
        if list.contains(x) {
            let k = choose|k: int| 0 <= k < list.len() && list[k] == x;
            assert(now[k + 1] == x);
            if k > 0 {
                assert(lex_less(list[0].0, list[k].0));
                law_order_is_transitive(key, list[0].0, list[k].0);
            }
        }
        if now.contains(x) && x != (key, files) {
            let k = choose|k: int| 0 <= k < now.len() && now[k] == x;
            assert(list[k - 1] == x);
        }
        assert forall|k: int| 0 <= k < now.len() implies (#[trigger] now[k]).0 == key || exists|m: int|
            0 <= m < list.len() && (#[trigger] list[m]).0 == now[k].0 by {
            if k > 0 {
                assert(list[k - 1].0 == now[k].0);
            }
        }
    } else {
        let rest = list.skip(1);
        assert(keys_ascend(rest)) by {
            assert forall|i: int, j: int| 0 <= i < j < rest.len() implies lex_less(
                rest[i].0,
                rest[j].0,
            ) by {
                assert(lex_less(list[i + 1].0, list[j + 1].0));
            }
        }
        if list[0].0 == key {
            assert(now =~= seq![(key, files)] + rest);
            assert forall|i: int, j: int| 0 <= i < j < now.len() implies lex_less(
                now[i].0,
                now[j].0,
            ) by {
                assert(lex_less(list[i].0, list[j].0));
            }
            assert(now[0] == (key, files));
            if list.contains(x) && x.0 != key {
                let k = choose|k: int| 0 <= k < list.len() && list[k] == x;
                assert(now[k] == x);
            }
            if now.contains(x) && x != (key, files) {
                let k = choose|k: int| 0 <= k < now.len() && now[k] == x;
                assert(list[k] == x);
                assert(lex_less(list[0].0, list[k].0));
            }
            assert forall|k: int| 0 <= k < now.len() implies (#[trigger] now[k]).0 == key
                || exists|m: int| 0 <= m < list.len() && (#[trigger] list[m]).0 == now[k].0 by {
                assert(list[k].0 == now[k].0);
            }
        } else {
            lemma_with_entry(rest, key, files, x);
            let tail = with_entry(rest, key, files);
            assert(now =~= seq![list[0]] + tail);
            law_order_is_total(key, list[0].0);
            assert forall|i: int, j: int| 0 <= i < j < now.len() implies lex_less(
                now[i].0,
                now[j].0,
            ) by {
                if i > 0 {
                    assert(lex_less(tail[i - 1].0, tail[j - 1].0));
                } else {
                    assert(now[j] == tail[j - 1]);
                    if tail[j - 1].0 != key {
                        let m = choose|m: int|
                            0 <= m < rest.len() && (#[trigger] rest[m]).0 == tail[j - 1].0;
                        assert(lex_less(list[0].0, list[m + 1].0));
                    }
                }
            }
            if tail.contains(x) {
                let k = choose|k: int| 0 <= k < tail.len() && tail[k] == x;
                assert(now[k + 1] == x);
            }
            if list.contains(x) {
                let k = choose|k: int| 0 <= k < list.len() && list[k] == x;
                if k == 0 {
                    assert(now[0] == x);
                } else {
                    assert(rest[k - 1] == x);
                }
            }
            if rest.contains(x) {
                let k = choose|k: int| 0 <= k < rest.len() && rest[k] == x;
                assert(list[k + 1] == x);
            }
            if now.contains(x) {
                let k = choose|k: int| 0 <= k < now.len() && now[k] == x;
                if k == 0 {
                    assert(list[0] == x);
                } else {
                    assert(tail[k - 1] == x);
                }
            }
            assert forall|k: int| 0 <= k < now.len() implies (#[trigger] now[k]).0 == key
                || exists|m: int| 0 <= m < list.len() && (#[trigger] list[m]).0 == now[k].0 by {
                if k == 0 {
                    assert(list[0].0 == now[0].0);
                } else if tail[k - 1].0 != key {
                    let m = choose|m: int|
                        0 <= m < rest.len() && (#[trigger] rest[m]).0 == tail[k - 1].0;
                    assert(list[m + 1].0 == now[k].0);
                }
            }
        }
    }
}

/// Entries in the order of their keys, no key twice.
pub open spec fn keys_ascend(list: Seq<(Seq<char>, Seq<Seq<char>>)>) -> bool {
    forall|i: int, j: int| 0 <= i < j < list.len() ==> lex_less(list[i].0, list[j].0)
}

/// Group `g` is shown under its key, and no later group is shown under the same.
pub open spec fn shown_last(groups: Seq<Group>, n: int, g: int) -> bool {
    &&& 0 <= g < n
    &&& forall|k: int|
        g < k < n ==> display_key((#[trigger] groups[k]).prefix, groups[k].rel_dir) != display_key(
            groups[g].prefix,
            groups[g].rel_dir,
        )
}

/// What is shown are the groups under their keys, in the order of the keys: under each
/// key the files of the last group that has it, in the order of their channels.
pub proof fn law_shown_groups(groups: Seq<Group>, n: int, x: (Seq<char>, Seq<Seq<char>>))
    requires
        0 <= n <= groups.len(),
    ensures
        keys_ascend(shown_groups(groups, n)),
        shown_groups(groups, n).contains(x) <==> exists|g: int|
            {
                &&& #[trigger] shown_last(groups, n, g)
                &&& x.0 == display_key(groups[g].prefix, groups[g].rel_dir)
                &&& x.1.len() == groups[g].files.len()
                &&& forall|i: int| 0 <= i < x.1.len() ==> #[trigger] x.1[i] == groups[g].files[i].1
            },
    decreases n,
{
    if n > 0 {
        law_shown_groups(groups, n - 1, x);
        let before = shown_groups(groups, n - 1);
        let own = groups[n - 1];
        let key = display_key(own.prefix, own.rel_dir);
        let files = paths_only(own.files);
        lemma_with_entry(before, key, files, x);
        assert(shown_last(groups, n, n - 1));
        if x == (key, files) {
            assert(forall|i: int| 0 <= i < x.1.len() ==> #[trigger] x.1[i] == own.files[i].1);
        }
        if before.contains(x) && x.0 != key {
            let g = choose|g: int|
                {
                    &&& #[trigger] shown_last(groups, n - 1, g)
                    &&& x.0 == display_key(groups[g].prefix, groups[g].rel_dir)
                    &&& x.1.len() == groups[g].files.len()
                    &&& forall|i: int|
                        0 <= i < x.1.len() ==> #[trigger] x.1[i] == groups[g].files[i].1
                };
            assert(shown_last(groups, n, g));
        }
        if exists|g: int|
            {
                &&& #[trigger] shown_last(groups, n, g)
                &&& x.0 == display_key(groups[g].prefix, groups[g].rel_dir)
                &&& x.1.len() == groups[g].files.len()
                &&& forall|i: int| 0 <= i < x.1.len() ==> #[trigger] x.1[i] == groups[g].files[i].1
            } {
            let g = choose|g: int|
                {
                    &&& #[trigger] shown_last(groups, n, g)
                    &&& x.0 == display_key(groups[g].prefix, groups[g].rel_dir)
                    &&& x.1.len() == groups[g].files.len()
                    &&& forall|i: int|
                        0 <= i < x.1.len() ==> #[trigger] x.1[i] == groups[g].files[i].1
                };
            if g == n - 1 {
                assert(x.1 =~= files);
            } else {
                assert(display_key(groups[n - 1].prefix, groups[n - 1].rel_dir) != x.0);
                assert(shown_last(groups, n - 1, g));
            }
        }
    }
}

// ── Recordings ─────────────────────────────────────────────────────────────

/// Pattern `k` is the first that finds something in file `i`.
pub open spec fn first_finds(matches: Seq<Seq<Option<Found>>>, k: int, i: int) -> bool {
    &&& 0 <= k < matches.len()
    &&& matches[k][i] is Some
    &&& forall|j: int| 0 <= j < k ==> (#[trigger] matches[j])[i] is None
}

/// Recording `at` holds the file, under the prefix and folder that were found, the name
/// of the pattern and the kind that goes with it.
pub open spec fn holds_file(
    all: Seq<Recording>,
    at: int,
    file: Seq<char>,
    prefix: Seq<char>,
    rel_dir: Seq<char>,
    name: Seq<char>,
) -> bool {
    &&& 0 <= at < all.len()
    &&& all[at].files.contains(file)
    &&& all[at].prefix == prefix
    &&& all[at].rel_dir == rel_dir
    &&& all[at].pattern_name == name
    &&& all[at].recording_type is MultiTrackAudio <==> name == "TASCAM"@
}

/// A file is in a recording of the first pattern that finds something in it.
pub proof fn law_file_goes_to_first_pattern(
    folder: Seq<char>,
    files: Seq<Seq<char>>,
    names: Seq<Seq<char>>,
    matches: Seq<Seq<Option<Found>>>,
    n: int,
    k: int,
    i: int,
)
    requires
        0 <= k < n <= matches.len(),
        names.len() == matches.len(),
        forall|j: int| 0 <= j < matches.len() ==> (#[trigger] matches[j]).len() == files.len(),
        0 <= i < files.len(),
        first_finds(matches, k, i),
    ensures
        exists|at: int| #[trigger]
            holds_file(
                recordings_upto(folder, files, names, matches, n),
                at,
                files[i],
                matches[k][i]->0.prefix,
                folder_below(folder, files[i]),
                names[k],
            ),
    decreases n,
{
    let found = matches[k][i]->0;
    let rel = folder_below(folder, files[i]);
    let before = recordings_upto(folder, files, names, matches, n - 1);
    let now = recordings_upto(folder, files, names, matches, n);
    if k < n - 1 {
        law_file_goes_to_first_pattern(folder, files, names, matches, n - 1, k, i);
        let at = choose|at: int| #[trigger]
            holds_file(before, at, files[i], found.prefix, rel, names[k]);
        assert(now[at] == before[at]);
        assert(holds_file(now, at, files[i], found.prefix, rel, names[k]));
    } else {
        let taken = taken_upto(matches, files.len(), k);
        crate::file_pattern::law_first_pattern_takes(matches, files.len(), k, i);
        assert(!taken[i]);
        let groups = groups_upto(folder, files, matches[k], taken, files.len() as int);
        let item = (found.channel, files[i]);
        crate::file_pattern::law_groups_hold_all_matches(
            folder,
            files,
            matches[k],
            taken,
            files.len() as int,
            rel,
            found.prefix,
            item,
        );
        assert(!taken[i]);
        let g = choose|g: int|
            0 <= g < groups.len() && (#[trigger] groups[g]).rel_dir == rel && groups[g].prefix
                == found.prefix && groups[g].files.contains(item);
        let x = choose|x: int| 0 <= x < groups[g].files.len() && groups[g].files[x] == item;
        let at = before.len() + g;
        assert(now[at] == as_recording(groups[g], names[k]));
        assert(now[at].files[x] == files[i]);
        assert(holds_file(now, at, files[i], found.prefix, rel, names[k]));
    }
}

/// Where the files of a recording come from: each is a file in which the pattern of the
/// recording is the first to find something, with its prefix and folder; and the
/// recordings of one pattern stand before those of a later one.
pub open spec fn is_from_pattern(
    folder: Seq<char>,
    files: Seq<Seq<char>>,
    names: Seq<Seq<char>>,
    matches: Seq<Seq<Option<Found>>>,
    r: Recording,
    k: int,
) -> bool {
    &&& 0 <= k < matches.len()
    &&& r.pattern_name == names[k]
    &&& r.files.len() > 0
    &&& forall|x: int|
        0 <= x < r.files.len() ==> is_found_there(
            folder,
            files,
            matches,
            #[trigger] r.files[x],
            k,
            r.prefix,
            r.rel_dir,
        )
}

/// The file is one in which pattern `k` is the first to find something.
pub open spec fn is_found_there(
    folder: Seq<char>,
    files: Seq<Seq<char>>,
    matches: Seq<Seq<Option<Found>>>,
    file: Seq<char>,
    k: int,
    prefix: Seq<char>,
    rel_dir: Seq<char>,
) -> bool {
    exists|i: int|
        {
            &&& 0 <= i < files.len()
            &&& #[trigger] files[i] == file
            &&& first_finds(matches, k, i)
            &&& matches[k][i]->0.prefix == prefix
            &&& folder_below(folder, files[i]) == rel_dir
        }
}

/// A recording holds nothing but files of its pattern, and the patterns keep their
/// order.
pub proof fn law_recordings_come_from_patterns(
    folder: Seq<char>,
    files: Seq<Seq<char>>,
    names: Seq<Seq<char>>,
    matches: Seq<Seq<Option<Found>>>,
    n: int,
) -> (from: Seq<int>)
    requires
        0 <= n <= matches.len(),
        names.len() == matches.len(),
        forall|j: int| 0 <= j < matches.len() ==> (#[trigger] matches[j]).len() == files.len(),
    ensures
        from.len() == recordings_upto(folder, files, names, matches, n).len(),
        forall|a: int|
            0 <= a < from.len() ==> from[a] < n && is_from_pattern(
                folder,
                files,
                names,
                matches,
                recordings_upto(folder, files, names, matches, n)[a],
                #[trigger] from[a],
            ),
        forall|a: int, b: int| 0 <= a < b < from.len() ==> from[a] <= from[b],
    decreases n,
{
    if n == 0 {
        seq![]
    } else {
        let old_from = law_recordings_come_from_patterns(folder, files, names, matches, n - 1);
        let before = recordings_upto(folder, files, names, matches, n - 1);
        let now = recordings_upto(folder, files, names, matches, n);
        let taken = taken_upto(matches, files.len(), n - 1);
        let m = files.len() as int;
        let groups = groups_upto(folder, files, matches[n - 1], taken, m);
        law_groups_are_in_order(folder, files, matches[n - 1], taken, m);
        let from = old_from + Seq::new(groups.len(), |g: int| n - 1);
        assert forall|a: int| 0 <= a < from.len() implies from[a] < n && is_from_pattern(
            folder,
            files,
            names,
            matches,
            now[a],
            #[trigger] from[a],
        ) by {
            if a < before.len() {
                assert(now[a] == before[a]);
                assert(from[a] == old_from[a]);
            } else {
                let g = groups[a - before.len()];
                assert(now[a] == as_recording(g, names[n - 1]));
                assert forall|x: int| 0 <= x < now[a].files.len() implies is_found_there(
                    folder,
                    files,
                    matches,
                    #[trigger] now[a].files[x],
                    n - 1,
                    g.prefix,
                    g.rel_dir,
                ) by {
                    lemma_found_there(
                        folder,
                        files,
                        matches,
                        n - 1,
                        g.rel_dir,
                        g.prefix,
                        g.files[x],
                        a - before.len(),
                    );
                }
            }
        }
        from
    }
}

proof fn lemma_taken_len(matches: Seq<Seq<Option<Found>>>, files: nat, n: int)
    ensures
        taken_upto(matches, files, n).len() == files,
    decreases n,
{
    if n > 0 {
        lemma_taken_len(matches, files, n - 1);
    }
}

proof fn lemma_found_there(
    folder: Seq<char>,
    files: Seq<Seq<char>>,
    matches: Seq<Seq<Option<Found>>>,
    k: int,
    rel: Seq<char>,
    prefix: Seq<char>,
    item: (u32, Seq<char>),
    g: int,
)
    requires
        0 <= k < matches.len(),
        matches[k].len() == files.len(),
        ({
            let groups = groups_upto(
                folder,
                files,
                matches[k],
                taken_upto(matches, files.len(), k),
                files.len() as int,
            );
            &&& 0 <= g < groups.len()
            &&& groups[g].rel_dir == rel
            &&& groups[g].prefix == prefix
            &&& groups[g].files.contains(item)
        }),
    ensures
        is_found_there(folder, files, matches, item.1, k, prefix, rel),
{
    let taken = taken_upto(matches, files.len(), k);
    let groups = groups_upto(folder, files, matches[k], taken, files.len() as int);
    assert(groups[g].files.contains(item));
    lemma_taken_len(matches, files.len(), k);
    crate::file_pattern::law_groups_hold_all_matches(
        folder,
        files,
        matches[k],
        taken,
        files.len() as int,
        rel,
        prefix,
        item,
    );
    let i = choose|i: int|
        0 <= i < files.len() && !(#[trigger] taken[i]) && matches[k][i] == Some(
            Found { prefix, channel: item.0 },
        ) && files[i] == item.1 && folder_below(folder, files[i]) == rel;
    assert(files[i] == item.1);
    crate::file_pattern::law_first_pattern_takes(matches, files.len(), k, i);
    assert(first_finds(matches, k, i));
}

// ── Chosen files ───────────────────────────────────────────────────────────

/// Putting the paths in order loses none and adds none.
pub proof fn law_chosen_files_are_kept(paths: Seq<Seq<char>>, n: int)
    requires
        0 <= n <= paths.len(),
    ensures
        paths_in_order(paths, n).to_multiset() == paths.take(n).to_multiset(),
        paths_in_order(paths, n).len() == n,
    decreases n,
{
    if n > 0 {
        law_chosen_files_are_kept(paths, n - 1);
        let before = paths_in_order(paths, n - 1);
        lemma_path_placed(before, paths[n - 1]);
        assert(paths.take(n) =~= paths.take(n - 1).push(paths[n - 1]));
        paths.take(n - 1).to_multiset_ensures();
    } else {
        assert(paths.take(0) =~= seq![]);
    }
}

proof fn lemma_path_placed(sorted: Seq<Seq<char>>, path: Seq<char>)
    ensures
        path_placed(sorted, path).to_multiset() == sorted.to_multiset().insert(path),
        path_placed(sorted, path).len() == sorted.len() + 1,
    decreases sorted.len(),
{
    sorted.to_multiset_ensures();
    if sorted.len() > 0 && path_before(path, sorted.last()) {
        let head = sorted.drop_last();
        lemma_path_placed(head, path);
        head.to_multiset_ensures();
        path_placed(head, path).to_multiset_ensures();
        assert(sorted =~= head.push(sorted.last()));
        assert(sorted.to_multiset() =~= head.to_multiset().insert(sorted.last()));
        assert(path_placed(sorted, path).to_multiset() =~= head.to_multiset().insert(path).insert(
            sorted.last(),
        ));
        assert(head.to_multiset().insert(path).insert(sorted.last())
            =~= head.to_multiset().insert(sorted.last()).insert(path));
    }
}

/// The first `d` components are the same, and then the first list ends, or has the
/// lesser component: the root before `.`, that before `..`, names last and by their
/// characters.
pub open spec fn differs_first(a: Seq<Seq<char>>, b: Seq<Seq<char>>, d: int) -> bool {
    &&& 0 <= d < b.len()
    &&& d <= a.len()
    &&& forall|k: int| 0 <= k < d ==> #[trigger] a[k] == b[k]
    &&& d < a.len() ==> a[d] != b[d] && {
        ||| a[d] == seq!['/']
        ||| a[d] == seq!['.'] && b[d] != seq!['/']
        ||| a[d] == seq!['.', '.'] && b[d] != seq!['/'] && b[d] != seq!['.']
        ||| {
            &&& b[d] != seq!['/'] && b[d] != seq!['.'] && b[d] != seq!['.', '.']
            &&& lex_less(a[d], b[d])
        }
    }
}

proof fn lemma_differs_first(a: Seq<Seq<char>>, b: Seq<Seq<char>>) -> (d: int)
    ensures
        components_less(a, b) ==> differs_first(a, b, d),
        (exists|k: int| differs_first(a, b, k)) ==> components_less(a, b),
    decreases a.len(),
{
    if b.len() == 0 {
        0
    } else if a.len() == 0 {
        0
    } else if a[0] != b[0] {
        assert(seq!['/'].len() == 1 && seq!['.'].len() == 1 && seq!['.', '.'].len() == 2);
        assert(seq!['/'][0] == '/' && seq!['.'][0] == '.');
        law_order_is_total(a[0], b[0]);
        if exists|k: int| differs_first(a, b, k) {
            let k = choose|k: int| differs_first(a, b, k);
            if k > 0 {
                assert(a[0] == b[0]);
            }
        }
        0
    } else {
        let x = a.skip(1);
        let y = b.skip(1);
        let d = lemma_differs_first(x, y);
        if components_less(a, b) {
            assert forall|k: int| 0 <= k < d + 1 implies #[trigger] a[k] == b[k] by {
                if k > 0 {
                    assert(x[k - 1] == y[k - 1]);
                }
            }
        }
        if exists|k: int| differs_first(a, b, k) {
            let k = choose|k: int| differs_first(a, b, k);
            if k == 0 {
                assert(a[0] != b[0]);
            } else {
                assert forall|j: int| 0 <= j < k - 1 implies #[trigger] x[j] == y[j] by {
                    assert(a[j + 1] == b[j + 1]);
                }
                assert(differs_first(x, y, k - 1));
            }
        }
        d + 1
    }
}

/// Paths are in the order of their components, the first difference decides.
pub proof fn law_order_of_paths(a: Seq<char>, b: Seq<char>)
    ensures
        path_before(a, b) <==> exists|d: int| #[trigger]
            differs_first(full_components(a), full_components(b), d),
        path_before(a, b) ==> !path_before(b, a),
{
    let x = full_components(a);
    let y = full_components(b);
    let d = lemma_differs_first(x, y);
    let e = lemma_differs_first(y, x);
    if path_before(a, b) && path_before(b, a) {
        if d < e {
            assert(y[d] == x[d]);
        } else if e < d {
            assert(x[e] == y[e]);
        } else {
            law_order_is_total(x[d], y[d]);
            assert(seq!['/'].len() == 1 && seq!['.'].len() == 1 && seq!['.', '.'].len() == 2);
            assert(seq!['/'][0] == '/' && seq!['.'][0] == '.');
        }
    }
}

/// No path stands directly behind a greater one.
pub proof fn law_chosen_files_are_in_order(paths: Seq<Seq<char>>, n: int, i: int)
    requires
        0 <= n <= paths.len(),
        0 < i < paths_in_order(paths, n).len(),
    ensures
        !path_before(paths_in_order(paths, n)[i], paths_in_order(paths, n)[i - 1]),
    decreases n,
{
    if n > 0 {
        let before = paths_in_order(paths, n - 1);
        assert forall|k: int| 0 < k < before.len() implies !path_before(
            #[trigger] before[k],
            before[k - 1],
        ) by {
            law_chosen_files_are_in_order(paths, n - 1, k);
        }
        lemma_path_order(before, paths[n - 1], i);
    }
}

proof fn lemma_path_order(sorted: Seq<Seq<char>>, path: Seq<char>, i: int)
    requires
        forall|k: int| 0 < k < sorted.len() ==> !path_before(#[trigger] sorted[k], sorted[k - 1]),
        0 < i < path_placed(sorted, path).len(),
    ensures
        !path_before(path_placed(sorted, path)[i], path_placed(sorted, path)[i - 1]),
    decreases sorted.len(),
{
    let now = path_placed(sorted, path);
    if sorted.len() == 0 || !path_before(path, sorted.last()) {
        if i < sorted.len() {
            assert(!path_before(sorted[i], sorted[i - 1]));
        }
    } else {
        let head = sorted.drop_last();
        lemma_path_placed(head, path);
        assert forall|k: int| 0 < k < head.len() implies !path_before(
            #[trigger] head[k],
            head[k - 1],
        ) by {
            assert(!path_before(sorted[k], sorted[k - 1]));
        }
        let rest = path_placed(head, path);
        if i < rest.len() {
            lemma_path_order(head, path, i);
        } else if head.len() > 0 && !(!path_before(path, head.last())) {
            assert(rest.last() == head.last());
            assert(!path_before(sorted[sorted.len() - 1], sorted[sorted.len() - 2]));
        } else {
            assert(rest.last() == path);
            law_order_of_paths(path, sorted.last());
        }
    }
}

} // verus!
