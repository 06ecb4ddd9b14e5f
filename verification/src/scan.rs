//! Walking through a folder: which folders to look into and which files to take.
//!
//! A [`Scan`] hands out one folder at a time and is told what the folder holds.

use vstd::prelude::*;

use crate::paths::{join_path, joined_path};
use crate::text::{lex_less, push_string, same, starts_with, strs, text_less};

verus! {

/// How deep folders are looked into.
pub const MAX_SCAN_DEPTH: usize = 8;

/// How many files are taken.
pub const MAX_SCAN_FILES: usize = 20_000;

/// What an entry of a folder is.
#[derive(Clone, Copy, Debug, PartialEq, Eq, Structural)]
pub enum EntryKind {
    File,
    Folder,
    Symlink,
    /// Anything else, or an entry that tells nothing of itself.
    Other,
}

/// An entry of a folder.
#[derive(Clone, Debug)]
pub struct FolderEntry {
    pub name: String,
    pub kind: EntryKind,
}

/// The names and kinds of entries.
pub open spec fn entries_of(v: Seq<FolderEntry>) -> Seq<(Seq<char>, EntryKind)> {
    v.map_values(|e: FolderEntry| (e.name@, e.kind))
}

/// A folder that is never looked into.
pub open spec fn is_junk(name: Seq<char>) -> bool {
    name == "__MACOSX"@ || name == "System Volume Information"@ || name == "$RECYCLE.BIN"@ || name
        == "LOST.DIR"@
}

/// A hidden entry.
pub open spec fn is_hidden(name: Seq<char>) -> bool {
    name.len() > 0 && name[0] == '.'
}

/// The model of [`Scan`].
#[verifier::ext_equal]
pub struct ScanState {
    /// The files so far.
    pub files: Seq<Seq<char>>,
    /// The folders that are still to be looked into, the next one last, with
    /// their depths.
    pub stack: Seq<(Seq<char>, nat)>,
    /// The folder that is being looked into.
    pub current: Option<(Seq<char>, nat)>,
}

/// Entries in the order of their names with one more.
pub open spec fn entry_placed(
    sorted: Seq<(Seq<char>, EntryKind)>,
    e: (Seq<char>, EntryKind),
) -> Seq<(Seq<char>, EntryKind)>
    decreases sorted.len(),
{
    if sorted.len() == 0 || !lex_less(e.0, sorted.last().0) {
        sorted.push(e)
    } else {
        entry_placed(sorted.drop_last(), e).push(sorted.last())
    }
}

/// The first `n` entries in the order of their names.
pub open spec fn entries_in_order(all: Seq<(Seq<char>, EntryKind)>, n: int) -> Seq<
    (Seq<char>, EntryKind),
>
    decreases n,
{
    if n <= 0 {
        seq![]
    } else {
        entry_placed(entries_in_order(all, n - 1), all[n - 1])
    }
}

/// A scan after one entry of the folder that is being looked into. Hidden
/// entries, links and junk folders are left out; nothing is taken once there are
/// enough files.
pub open spec fn after_entry(s: ScanState, e: (Seq<char>, EntryKind)) -> ScanState {
    let (folder, depth) = s.current->0;
    if s.files.len() >= MAX_SCAN_FILES || is_hidden(e.0) {
        s
    } else {
        match e.1 {
            EntryKind::File => ScanState { files: s.files.push(joined_path(folder, e.0)), ..s },
            EntryKind::Folder => if is_junk(e.0) {
                s
            } else {
                ScanState { stack: s.stack.push((joined_path(folder, e.0), depth + 1)), ..s }
            },
            EntryKind::Symlink => s,
            EntryKind::Other => s,
        }
    }
}

/// A scan after the first `n` entries.
pub open spec fn after_entries(s: ScanState, sorted: Seq<(Seq<char>, EntryKind)>, n: int) -> ScanState
    decreases n,
{
    if n <= 0 {
        s
    } else {
        after_entry(after_entries(s, sorted, n - 1), sorted[n - 1])
    }
}

/// A scan that turns to the next folder. Folders that are too deep are passed
/// over; nothing is left to do once there are enough files.
pub open spec fn turned(s: ScanState) -> ScanState
    decreases s.stack.len(),
{
    if s.files.len() >= MAX_SCAN_FILES || s.stack.len() == 0 {
        ScanState { current: None, ..s }
    } else {
        let (folder, depth) = s.stack.last();
        let rest = ScanState { stack: s.stack.drop_last(), ..s };
        if depth > MAX_SCAN_DEPTH {
            turned(rest)
        } else {
            ScanState { current: Some((folder, depth)), ..rest }
        }
    }
}

/// A walk through a folder and the folders below it.
#[derive(Clone, Debug)]
pub struct Scan {
    files: Vec<String>,
    stack: Vec<(String, usize)>,
    current: Option<(String, usize)>,
}

spec fn stack_of(v: Seq<(String, usize)>) -> Seq<(Seq<char>, nat)> {
    v.map_values(|f: (String, usize)| (f.0@, f.1 as nat))
}

impl View for Scan {
    type V = ScanState;

    closed spec fn view(&self) -> ScanState {
        ScanState {
            files: strs(self.files@),
            stack: stack_of(self.stack@),
            current: match self.current {
                Some((folder, depth)) => Some((folder@, depth as nat)),
                None => None,
            },
        }
    }
}

fn place_entry(sorted: &mut Vec<FolderEntry>, e: FolderEntry)
    ensures
        entries_of(final(sorted)@) == entry_placed(entries_of(old(sorted)@), (e.name@, e.kind)),
{
    let ghost all = entries_of(sorted@);
    let ghost item = (e.name@, e.kind);
    let mut i: usize = sorted.len();
    assert(all.take(all.len() as int) =~= all);
    assert(entry_placed(all.take(i as int), item) + all.skip(i as int) =~= entry_placed(all, item));
    while i > 0 && text_less(e.name.as_str(), sorted[i - 1].name.as_str())
        invariant
            i <= sorted@.len(),
            all == entries_of(sorted@),
            item == (e.name@, e.kind),
            entry_placed(all.take(i as int), item) + all.skip(i as int) == entry_placed(all, item),
        decreases i,
    {
        let ghost head = all.take(i as int);
        assert(head.last() == (sorted@[i - 1].name@, sorted@[i - 1].kind));
        assert(head.drop_last() =~= all.take(i - 1));
        assert(entry_placed(head, item) == entry_placed(all.take(i - 1), item).push(head.last()));
        assert(entry_placed(all.take(i - 1), item).push(head.last()) + all.skip(i as int)
            =~= entry_placed(all.take(i - 1), item) + all.skip(i - 1));
        i -= 1;
    }
    let ghost head = all.take(i as int);
    if i > 0 {
        assert(head.last() == (sorted@[i - 1].name@, sorted@[i - 1].kind));
    }
    sorted.insert(i, e);
    assert(entries_of(sorted@) =~= head.push(item) + all.skip(i as int));
}

fn sort_entries(entries: Vec<FolderEntry>) -> (r: Vec<FolderEntry>)
    ensures
        entries_of(r@) == entries_in_order(entries_of(entries@), entries@.len() as int),
{
    let ghost all = entries_of(entries@);
    let mut sorted: Vec<FolderEntry> = Vec::new();
    let mut i: usize = 0;
    assert(entries_of(sorted@) =~= seq![]);
    while i < entries.len()
        invariant
            i <= entries@.len(),
            all == entries_of(entries@),
            entries_of(sorted@) == entries_in_order(all, i as int),
        decreases entries@.len() - i,
    {
        let e = FolderEntry { name: entries[i].name.clone(), kind: entries[i].kind };
        assert(all[i as int] == (e.name@, e.kind));
        place_entry(&mut sorted, e);
        i += 1;
    }
    sorted
}

fn junk(name: &str) -> (r: bool)
    ensures
        r == is_junk(name@),
{
    same(name, "__MACOSX") || same(name, "System Volume Information") || same(name, "$RECYCLE.BIN")
        || same(name, "LOST.DIR")
}

fn hidden(name: &str) -> (r: bool)
    ensures
        r == is_hidden(name@),
{
    proof {
        reveal_strlit(".");
        assert("."@ =~= seq!['.']);
        if is_hidden(name@) {
            assert(name@.subrange(0, 1) =~= seq!['.']);
        }
        if "."@.is_prefix_of(name@) {
            assert(name@.subrange(0, 1)[0] == '.');
        }
    }
    starts_with(name, ".")
}

impl Scan {
    /// No folder is deeper than can be counted.
    pub closed spec fn wf(self) -> bool {
        &&& forall|i: int|
            0 <= i < self.stack@.len() ==> (#[trigger] self.stack@[i]).1 <= MAX_SCAN_DEPTH + 1
        &&& self.current matches Some((_, depth)) ==> depth <= MAX_SCAN_DEPTH
    }

    /// A walk that starts at a folder.
    pub fn new(root: &str) -> (r: Scan)
        ensures
            r.wf(),
            r@ == (ScanState { files: seq![], stack: seq![(root@, 0nat)], current: None }),
    {
        let stack: Vec<(String, usize)> = vec![(root.to_owned(), 0)];
        let r = Scan { files: Vec::new(), stack, current: None };
        assert(strs(r.files@) =~= seq![]);
        assert(stack_of(r.stack@) =~= seq![(root@, 0nat)]);
        r
    }

    /// The next folder to look into; `None` when the walk is over.
    pub fn next_folder(&mut self) -> (r: Option<String>)
        requires
            old(self).wf(),
        ensures
            final(self).wf(),
            final(self)@ == turned(old(self)@),
            match r {
                Some(folder) => final(self)@.current matches Some((f, _)) && f == folder@,
                None => final(self)@.current is None,
            },
    {
        self.current = None;
        let ghost start = self@;
        assert(turned(start) == turned(old(self)@)) by {
            lemma_turned_current(old(self)@);
        }
        while self.files.len() < MAX_SCAN_FILES && self.stack.len() > 0
            invariant
                self.wf(),
                self@.current is None,
                turned(self@) == turned(start),
                turned(start) == turned(old(self)@),
            decreases self.stack@.len(),
        {
            let ghost before = self@;
            let n: usize = self.stack.len();
            assert(before.stack.len() == n);
            match self.stack.pop() {
                Some((folder, depth)) => {
                    assert(before.stack.last() == (folder@, depth as nat));
                    assert(stack_of(self.stack@) =~= before.stack.drop_last());
                    if depth <= MAX_SCAN_DEPTH {
                        self.current = Some((folder.clone(), depth));
                        return Some(folder);
                    }
                },
                None => {},
            }
        }
        assert(strs(self.files@).len() == self.files@.len());
        assert(stack_of(self.stack@).len() == self.stack@.len());
        None
    }

    /// Tells what the folder that was handed out last holds, in any order.
    pub fn take_entries(&mut self, entries: Vec<FolderEntry>)
        requires
            old(self).wf(),
            old(self)@.current is Some,
        ensures
            final(self).wf(),
            ({
                let sorted = entries_in_order(entries_of(entries@), entries@.len() as int);
                final(self)@ == after_entries(old(self)@, sorted, sorted.len() as int)
            }),
    {
        let sorted = sort_entries(entries);
        let ghost all = entries_of(sorted@);
        let ghost start = self@;
        let (folder, depth) = match &self.current {
            Some((folder, depth)) => (folder.clone(), *depth),
            None => {
                return;
            },
        };
        let mut i: usize = 0;
        while i < sorted.len()
            invariant
                i <= sorted@.len(),
                all == entries_of(sorted@),
                self.wf(),
                self@.current == Some((folder@, depth as nat)),
                depth <= MAX_SCAN_DEPTH,
                self@ == after_entries(start, all, i as int),
            decreases sorted@.len() - i,
        {
            let e = &sorted[i];
            assert(all[i as int] == (e.name@, e.kind));
            let ghost before = self@;
            assert(before.files.len() == self.files@.len());
            if self.files.len() < MAX_SCAN_FILES && !hidden(e.name.as_str()) {
                match e.kind {
                    EntryKind::File => {
                        push_string(&mut self.files, join_path(folder.as_str(), e.name.as_str()));
                    },
                    EntryKind::Folder => {
                        if !junk(e.name.as_str()) {
                            let path = join_path(folder.as_str(), e.name.as_str());
                            let ghost item = (path@, (depth + 1) as nat);
                            self.stack.push((path, depth + 1));
                            assert(stack_of(self.stack@) =~= before.stack.push(item));
                        }
                    },
                    EntryKind::Symlink => {},
                    EntryKind::Other => {},
                }
            }
            i += 1;
        }
    }

    /// The files so far.
    pub fn files(&self) -> (r: &Vec<String>)
        ensures
            strs(r@) == self@.files,
    {
        &self.files
    }
}

proof fn lemma_turned_current(s: ScanState)
    ensures
        turned(s) == turned(ScanState { current: None, ..s }),
    decreases s.stack.len(),
{
    if !(s.files.len() >= MAX_SCAN_FILES || s.stack.len() == 0) {
        let rest = ScanState { stack: s.stack.drop_last(), ..s };
        if s.stack.last().1 > MAX_SCAN_DEPTH {
            lemma_turned_current(rest);
        }
    }
}

// ── Laws ───────────────────────────────────────────────────────────────────

/// A walk never takes more files than the limit.
pub proof fn law_scan_is_bounded(s: ScanState, sorted: Seq<(Seq<char>, EntryKind)>, n: int)
    requires
        s.files.len() <= MAX_SCAN_FILES,
    ensures
        after_entries(s, sorted, n).files.len() <= MAX_SCAN_FILES,
    decreases n,
{
    if n > 0 {
        law_scan_is_bounded(s, sorted, n - 1);
    }
}

/// A folder that is handed out is never deeper than the limit.
pub proof fn law_scan_depth(s: ScanState)
    ensures
        turned(s).current matches Some((_, depth)) ==> depth <= MAX_SCAN_DEPTH,
    decreases s.stack.len(),
{
    if !(s.files.len() >= MAX_SCAN_FILES || s.stack.len() == 0) {
        if s.stack.last().1 > MAX_SCAN_DEPTH {
            law_scan_depth(ScanState { stack: s.stack.drop_last(), ..s });
        }
    }
}

/// Hidden entries, links and junk folders change nothing.
pub proof fn law_scan_skips(s: ScanState, name: Seq<char>, kind: EntryKind)
    requires
        is_hidden(name) || kind == EntryKind::Symlink || (kind == EntryKind::Folder && is_junk(name)),
    ensures
        after_entry(s, (name, kind)) == s,
{
}

} // verus!
