//! Classification of a probe: the check whether a remote target that no
//! local file claimed is there after all.

use crate::outcome::Outcome;
use crate::text::{contains_seq, find_seq, to_chars};
use vstd::prelude::*;

verus! {

/// The message of the error that reports an unclaimed target as found.
pub open spec fn available_message() -> Seq<char> {
    seq!['a', 'v', 'a', 'i', 'l', 'a', 'b', 'l', 'e']
}

/// Whether a status code reports success.
pub open spec fn is_success(code: u32) -> bool {
    200 <= code < 300
}

/// Whether a response shows the target to be there: the status of the last
/// response reports success, and the URL that it came from still holds the
/// name.
pub open spec fn found_live(code: u32, effective_url: Seq<char>, name: Seq<char>) -> bool {
    is_success(code) && contains_seq(effective_url, name)
}

/// What a probe that was answered amounts to: an error with the message
/// `available` where the target was found, else `NotAvailable`.
pub open spec fn probe_spec(code: u32, effective_url: Seq<char>, name: Seq<char>, o: Outcome) -> bool {
    if found_live(code, effective_url, name) {
        o matches Outcome::Error(message) && message@ == available_message()
    } else {
        o is NotAvailable
    }
}

/// Whether `name` occurs in `text`.
pub fn holds_name(text: &str, name: &str) -> (r: bool)
    ensures
        r == contains_seq(text@, name@),
{
    let t = to_chars(text);
    let n = to_chars(name);
    find_seq(&t, &n, 0).is_some()
}

/// Classifies the answer to a probe for `name`: `code` is the status of the
/// last response, `effective_url` the URL that it came from.
pub fn classify_probe(name: &str, code: u32, effective_url: &str) -> (o: Outcome)
    ensures
        probe_spec(code, effective_url@, name@, o),
{
    if code >= 200 && code < 300 && holds_name(effective_url, name) {
        proof {
            reveal_strlit("available");
        }
        assert("available"@ =~= available_message());
        Outcome::Error("available".to_owned())
    } else {
        Outcome::NotAvailable
    }
}

/// The outcome of a probe for `name`. A probe that the transport failed is
/// an error with the transport's message; one that was answered, with status
/// and final URL, is classified by them.
pub fn probe_outcome(name: &str, answer: Result<(u32, String), String>) -> (o: Outcome)
    ensures
        match answer {
            Ok((code, url)) => probe_spec(code, url@, name@, o),
            Err(message) => o == Outcome::Error(message),
        },
{
    match answer {
        Ok((code, url)) => classify_probe(name, code, url.as_str()),
        Err(message) => Outcome::Error(message),
    }
}

} // verus!
