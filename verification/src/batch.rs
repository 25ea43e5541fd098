//! The decisions of a run, item by item: what to do with a file, what a
//! transfer amounts to, and how a decided outcome is put on record.

use crate::compare::{verdict, Comparator};
use crate::ledger::SkipSet;
use crate::outcome::{entry_line, ledger_line, Counter, Outcome};
use crate::source::Source;
use vstd::prelude::*;

verus! {

/// What is to be done with an input path.
pub enum FileStep {
    /// The path names no regular file: this is reported on the console
    /// only; nothing is recorded or counted.
    NotAFile,
    /// The name was decided before: nothing is done, nothing is recorded.
    Skip,
    /// No source gives a URL for the name: this is recorded as an error.
    Missing,
    /// The file is to be compared with what this URL serves.
    Fetch(String),
}

/// The message of the error that reports a name without a source.
pub open spec fn missing_message() -> Seq<char> {
    seq!['m', 'i', 's', 's', 'i', 'n', 'g', ' ', 's', 'o', 'u', 'r', 'c', 'e']
}

/// Decides what is to be done with an input path of name `name`;
/// `is_file` says whether the path names a regular file. A path that names
/// none is set aside, and a name of the skip set is skipped: either way the
/// source is left alone. For any other name the source is asked, which uses
/// up a table's entry.
pub fn plan_file(name: &str, is_file: bool, skip: &SkipSet, src: &mut Source) -> (step: FileStep)
    requires
        old(src).wf(),
    ensures
        final(src).wf(),
        !is_file ==> step is NotAFile && final(src)@ == old(src)@,
        is_file && skip@.contains(name@) ==> step is Skip && final(src)@ == old(src)@,
        is_file && !skip@.contains(name@) ==> final(src)@ == old(src)@.without(name@) && match old(
            src,
        )@.url_for(name@) {
            Some(url) => step matches FileStep::Fetch(u) && u@ == url,
            None => step is Missing,
        },
{
    if !is_file {
        FileStep::NotAFile
    } else if skip.contains(name) {
        FileStep::Skip
    } else {
        match src.provide(name) {
            Some(url) => FileStep::Fetch(url),
            None => FileStep::Missing,
        }
    }
}

/// The outcome for a name that no source gives a URL for: an error with the
/// message `missing source`.
pub fn missing_source() -> (o: Outcome)
    ensures
        o matches Outcome::Error(message) && message@ == missing_message(),
{
    proof {
        reveal_strlit("missing source");
    }
    assert("missing source"@ =~= missing_message());
    Outcome::Error("missing source".to_owned())
}

/// The outcome of a transfer that was compared by `comparison` with a local
/// file of `len` bytes. A transfer that the transport failed is an error
/// with the transport's message, whatever was compared. One that completed
/// is `Good` where no chunk failed to match and the file was read to its
/// end, else `Bad`.
pub fn transfer_outcome(comparison: &Comparator, len: u64, transfer: Result<(), String>) -> (o:
    Outcome)
    ensures
        match transfer {
            Ok(_) => (o is Good <==> verdict(comparison@, len as nat)) && (o is Bad <==> !verdict(
                comparison@,
                len as nat,
            )),
            Err(message) => o == Outcome::Error(message),
        },
{
    match transfer {
        Ok(_) => comparison.finish(len),
        Err(message) => Outcome::Error(message),
    }
}

/// Puts the outcome of `name` on record: counts it in its bucket and gives
/// the line to append to the ledger, without its line ending.
pub fn settle(counter: &mut Counter, name: &str, outcome: &Outcome) -> (line: String)
    requires
        old(counter).count(outcome.kind()) < u64::MAX,
    ensures
        final(counter).follows(*old(counter), outcome.kind()),
        line@ == entry_line(name@, *outcome),
{
    counter.record(outcome.bucket());
    ledger_line(name, outcome)
}

} // verus!
