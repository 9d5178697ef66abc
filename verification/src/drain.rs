//! The queue drain: each cycle lists the pending source filenames and works
//! through all of them. An entry leaves the queue only when its split
//! succeeded; a failing entry stays queued for a later cycle, and its
//! failure never keeps another entry from being processed, since each
//! entry's fate depends on its own outcome alone.

use vstd::prelude::*;
use crate::book::Book;
use crate::book::ceiling_of;

verus! {

/// Decision for one pending entry, from what the cycle learned about it.
#[derive(PartialEq, Eq, Structural, Clone, Copy, Debug)]
pub enum DrainAction {
    /// No catalog record maps to the name: leave the entry, skip it.
    SkipUnknown,
    /// The source file is not on disk: leave the entry, skip it.
    SkipMissing,
    /// Split the file with this ceiling; remove the entry only if the
    /// split succeeds.
    RunSplit { stop: i32 },
}

/// What the drain does with one pending entry: it splits only a name that
/// both resolves to a catalog record and exists on disk.
pub fn drain_entry_action(record: Option<&Book>, file_exists: bool) -> (r: DrainAction)
    ensures
        match r {
            DrainAction::SkipUnknown => record is None,
            DrainAction::SkipMissing => record is Some && !file_exists,
            DrainAction::RunSplit { stop } => {
                &&& record is Some
                &&& file_exists
                &&& stop == ceiling_of(record->Some_0)
            },
        },
{
    match record {
        None => DrainAction::SkipUnknown,
        Some(book) => {
            if !file_exists {
                DrainAction::SkipMissing
            } else {
                let stop = match book.start_count {
                    Some(s) => s,
                    None => 0,
                };
                DrainAction::RunSplit { stop }
            }
        },
    }
}

/// The queue after one cycle: the entries whose split did not succeed, in
/// their original order.
pub open spec fn surviving(entries: Seq<Seq<char>>, succeeded: Seq<bool>) -> Seq<Seq<char>>
    decreases entries.len(),
{
    if entries.len() == 0 {
        Seq::empty()
    } else {
        let rest = surviving(entries.drop_last(), succeeded.drop_last());
        if succeeded.len() > 0 && succeeded.last() {
            rest
        } else {
            rest.push(entries.last())
        }
    }
}

/// Applies one drain cycle to the pending queue: entry `i` is removed
/// exactly when `succeeded[i]`; everything else stays, in order.
pub fn drain_cycle(entries: &Vec<String>, succeeded: &Vec<bool>) -> (q: Vec<String>)
    requires
        entries.len() == succeeded.len(),
    ensures
        q.deep_view() == surviving(entries.deep_view(), succeeded@),
{
    let mut out: Vec<String> = Vec::new();
    let mut i: usize = 0;
    proof {
        assert(out.deep_view() =~= surviving(
            entries.deep_view().subrange(0, 0),
            succeeded@.subrange(0, 0),
        ));
    }
    while i < entries.len()
        invariant
            entries.len() == succeeded.len(),
            i <= entries.len(),
            out.deep_view() == surviving(
                entries.deep_view().subrange(0, i as int),
                succeeded@.subrange(0, i as int),
            ),
        decreases entries.len() - i,
    {
        let ghost odv = out.deep_view();
        if !succeeded[i] {
            out.push(entries[i].clone());
            proof {
                assert(out.deep_view() =~= odv.push(entries.deep_view()[i as int]));
            }
        }
        proof {
            let ep = entries.deep_view().subrange(0, i + 1);
            let sp = succeeded@.subrange(0, i + 1);
            assert(ep.drop_last() =~= entries.deep_view().subrange(0, i as int));
            assert(sp.drop_last() =~= succeeded@.subrange(0, i as int));
            assert(ep.last() == entries.deep_view()[i as int]);
            assert(sp.last() == succeeded@[i as int]);
        }
        i += 1;
    }
    proof {
        assert(entries.deep_view().subrange(0, entries.len() as int) =~= entries.deep_view());
        assert(succeeded@.subrange(0, succeeded.len() as int) =~= succeeded@);
    }
    out
}

/// Queue entries are removed only after a successful split: a failing entry
/// is still queued after the cycle, and everything the cycle removed had
/// succeeded.
pub proof fn lemma_removed_only_on_success(entries: Seq<Seq<char>>, succeeded: Seq<bool>, i: int)
    requires
        entries.len() == succeeded.len(),
        0 <= i < entries.len(),
        !succeeded[i],
    ensures
        surviving(entries, succeeded).contains(entries[i]),
    decreases entries.len(),
{
    let rest = surviving(entries.drop_last(), succeeded.drop_last());
    if i == entries.len() - 1 {
        assert(surviving(entries, succeeded)[rest.len() as int] == entries[i]);
    } else {
        lemma_removed_only_on_success(entries.drop_last(), succeeded.drop_last(), i);
        let j = choose|j: int| 0 <= j < rest.len() && rest[j] == entries[i];
        assert(surviving(entries, succeeded)[j] == entries[i]);
    }
}

/// Everything in the queue after a cycle was pending before it and had not
/// succeeded: the cycle invents no entry and keeps no successful one.
pub proof fn lemma_surviving_from_failures(entries: Seq<Seq<char>>, succeeded: Seq<bool>, x: Seq<char>)
    requires
        entries.len() == succeeded.len(),
        surviving(entries, succeeded).contains(x),
    ensures
        exists|i: int| 0 <= i < entries.len() && entries[i] == x && !succeeded[i],
    decreases entries.len(),
{
    let rest = surviving(entries.drop_last(), succeeded.drop_last());
    if succeeded.len() > 0 && succeeded.last() {
        lemma_surviving_from_failures(entries.drop_last(), succeeded.drop_last(), x);
        let i = choose|i: int|
            0 <= i < entries.drop_last().len() && entries.drop_last()[i] == x
                && !succeeded.drop_last()[i];
        assert(entries[i] == x && !succeeded[i]);
    } else {
        let s = surviving(entries, succeeded);
        let j = choose|j: int| 0 <= j < s.len() && s[j] == x;
        if j == s.len() - 1 {
            assert(entries[entries.len() - 1] == x && !succeeded[entries.len() - 1]);
        } else {
            assert(rest.contains(x));
            lemma_surviving_from_failures(entries.drop_last(), succeeded.drop_last(), x);
            let i = choose|i: int|
                0 <= i < entries.drop_last().len() && entries.drop_last()[i] == x
                    && !succeeded.drop_last()[i];
            assert(entries[i] == x && !succeeded[i]);
        }
    }
}

} // verus!
