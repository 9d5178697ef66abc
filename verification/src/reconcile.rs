//! The reconciliation pass: at startup every existing catalog key is
//! enumerated, each is resolved to a record, and each record with a source
//! locator is split. Keys without a numeric id and records without a source
//! are skipped with a warning, never fatally.

use vstd::prelude::*;
use crate::book::Book;
use crate::book::SplitRequest;
use crate::book::ceiling_of;
use crate::book::split_request_of;
use crate::text::tail_after_last;

verus! {

/// What the reconciliation pass does for one catalog key it resolved.
pub enum ReconcileAction {
    /// No record stands under the key's id, or the record has no source
    /// locator: logged and skipped, never fatal.
    SkipRecord,
    /// Split this file, with this ceiling, through the retry executor.
    RunSplit(SplitRequest),
}

/// Decides what to do with one looked-up record: only a record with a
/// source locator is split; the filename is the locator's last path segment
/// and the ceiling defaults to 0.
pub fn reconcile_action(record: Option<&Book>) -> (r: ReconcileAction)
    ensures
        match r {
            ReconcileAction::SkipRecord => record is None || record->Some_0.source_url is None,
            ReconcileAction::RunSplit(req) => {
                &&& record is Some
                &&& record->Some_0.source_url is Some
                &&& req.file_name@ == tail_after_last(record->Some_0.source_url->Some_0@, '/')
                &&& req.stop == ceiling_of(record->Some_0)
            },
        },
{
    match record {
        None => ReconcileAction::SkipRecord,
        Some(book) => match split_request_of(book) {
            Some(req) => ReconcileAction::RunSplit(req),
            None => ReconcileAction::SkipRecord,
        },
    }
}

/// The names of the regular files among walked directory entries, in order:
/// each entry is a flag saying whether it is a regular file, and its name.
pub open spec fn file_names(entries: Seq<(bool, Seq<char>)>) -> Seq<Seq<char>>
    decreases entries.len(),
{
    if entries.len() == 0 {
        Seq::empty()
    } else {
        let rest = file_names(entries.drop_last());
        if entries.last().0 {
            rest.push(entries.last().1)
        } else {
            rest
        }
    }
}

/// Keeps the names of the regular files out of a directory walk: what the
/// startup pass seeds the pending queue with.
pub fn pending_file_names(entries: &Vec<(bool, String)>) -> (r: Vec<String>)
    ensures
        r.deep_view() == file_names(entries.deep_view()),
{
    let mut out: Vec<String> = Vec::new();
    let mut i: usize = 0;
    proof {
        assert(out.deep_view() =~= file_names(entries.deep_view().subrange(0, 0)));
    }
    while i < entries.len()
        invariant
            i <= entries.len(),
            out.deep_view() == file_names(entries.deep_view().subrange(0, i as int)),
        decreases entries.len() - i,
    {
        let ghost odv = out.deep_view();
        let ghost prefix = entries.deep_view().subrange(0, i as int);
        if entries[i].0 {
            out.push(entries[i].1.clone());
            proof {
                assert(out.deep_view() =~= odv.push(entries.deep_view()[i as int].1));
            }
        }
        proof {
            let next = entries.deep_view().subrange(0, i + 1);
            assert(next.drop_last() =~= prefix);
            assert(next.last() == entries.deep_view()[i as int]);
        }
        i += 1;
    }
    proof {
        assert(entries.deep_view().subrange(0, entries.len() as int) =~= entries.deep_view());
    }
    out
}

} // verus!
