//! The last lines of a log.

use std::collections::VecDeque;
use vstd::prelude::*;

verus! {

/// The number of lines the program keeps.
pub const MAX_LOG_ENTRIES: usize = 1000;

/// Log lines, the oldest first. A line that finds the buffer full takes the
/// place of the oldest one.
pub struct LogBuffer {
    pub entries: VecDeque<String>,
    pub max_entries: usize,
}

/// The lines after `entry` has been added to a buffer that holds `max` of them.
pub open spec fn pushed(entries: Seq<String>, max: nat, entry: String) -> Seq<String> {
    if entries.len() > 0 && entries.len() >= max {
        entries.skip(1).push(entry)
    } else {
        entries.push(entry)
    }
}

/// The lines after all of `added` have been added, one after the other.
pub open spec fn pushed_all(entries: Seq<String>, max: nat, added: Seq<String>) -> Seq<String>
    decreases added.len(),
{
    if added.len() == 0 {
        entries
    } else {
        pushed(pushed_all(entries, max, added.drop_last()), max, added.last())
    }
}

impl LogBuffer {
    /// An empty buffer.
    pub fn new(max_entries: usize) -> (r: LogBuffer)
        ensures
            r.entries@ == Seq::<String>::empty(),
            r.max_entries == max_entries,
    {
        LogBuffer { entries: VecDeque::new(), max_entries }
    }

    /// Adds a line at the end.
    pub fn push(&mut self, entry: String)
        ensures
            final(self).entries@ == pushed(old(self).entries@, old(self).max_entries as nat, entry),
            final(self).max_entries == old(self).max_entries,
    {
        if self.entries.len() > 0 && self.entries.len() >= self.max_entries {
            let _oldest = self.entries.pop_front();
            assert(self.entries@ =~= old(self).entries@.skip(1));
        }
        self.entries.push_back(entry);
    }
}

/// A buffer that starts empty holds the lines that were added last, in the order
/// in which they were added: all of them, or as many as it has room for. A buffer
/// without room still holds the last line.
pub proof fn law_keeps_last_lines(max: nat, added: Seq<String>)
    ensures
        ({
            let room = if max == 0 {
                1
            } else {
                max
            };
            pushed_all(Seq::<String>::empty(), max, added) == if added.len() <= room {
                added
            } else {
                added.skip(added.len() - room)
            }
        }),
    decreases added.len(),
{
    let room: nat = if max == 0 {
        1
    } else {
        max
    };
    let kept = pushed_all(Seq::<String>::empty(), max, added);
    if added.len() == 0 {
        assert(kept =~= added);
    } else {
        law_keeps_last_lines(max, added.drop_last());
        if added.len() <= room {
            assert(kept =~= added);
        } else {
            assert(kept =~= added.skip(added.len() - room));
        }
    }
}

} // verus!
