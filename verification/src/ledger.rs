//! The ledger of decided names: how its lines are read, and what a replay of
//! it leaves behind.

use crate::outcome::{
    bad_token, entry_line, error_word, good_token, na_token, separator, Counter, Kind, Outcome,
};
use crate::source::{lemma_taking_all_keeps, names_nonempty, Source};
use crate::text::{
    contains_seq, find_seq, first_char, first_occurrence, has_char, lemma_line_end_at, line_end,
    lines_of, matches_at, occurs_at, slice_to_string, split_lines, starts_with_seq, strip_cr,
    to_chars, views,
};
use vstd::hash_set::StringHashSet;
use vstd::prelude::*;

verus! {

/// The two parts of a ledger line: what precedes its first `: ` and what
/// follows it. A line without `: ` has no parts.
pub open spec fn split_entry(line: Seq<char>) -> Option<(Seq<char>, Seq<char>)> {
    if contains_seq(line, separator()) {
        let i = choose|i: int| first_occurrence(line, separator(), i);
        Some((line.take(i), line.skip(i + 2)))
    } else {
        None
    }
}

/// The bucket that a status counts in: `good`, `bad` and `n/a` as they
/// stand, and whatever begins with `error`. Any other status counts nowhere.
pub open spec fn status_kind(status: Seq<char>) -> Option<Kind> {
    if status == good_token() {
        Some(Kind::Good)
    } else if status == bad_token() {
        Some(Kind::Bad)
    } else if status == na_token() {
        Some(Kind::NotAvailable)
    } else if starts_with_seq(status, error_word()) {
        Some(Kind::Error)
    } else {
        None
    }
}

/// The name that a ledger line decides, if it decides one.
pub open spec fn entry_name(line: Seq<char>) -> Option<Seq<char>> {
    match split_entry(line) {
        Some((name, _)) => Some(name),
        None => None,
    }
}

/// The bucket that a ledger line counts in, if it counts.
pub open spec fn entry_kind(line: Seq<char>) -> Option<Kind> {
    match split_entry(line) {
        Some((_, status)) => status_kind(status),
        None => None,
    }
}

/// The names that the lines decide.
pub open spec fn decided(lines: Seq<Seq<char>>) -> Set<Seq<char>> {
    Set::new(
        |name: Seq<char>|
            exists|i: int| 0 <= i < lines.len() && entry_name(#[trigger] lines[i]) == Some(name),
    )
}

/// How many of the lines count in bucket `k`.
pub open spec fn tally(lines: Seq<Seq<char>>, k: Kind) -> nat
    decreases lines.len(),
{
    if lines.len() == 0 {
        0
    } else {
        tally(lines.drop_last(), k) + (if entry_kind(lines.last()) == Some(k) {
            1nat
        } else {
            0nat
        })
    }
}

/// Where `: ` occurs first at `i`, the line parts there.
pub proof fn lemma_split_entry_at(line: Seq<char>, i: int)
    requires
        first_occurrence(line, separator(), i),
    ensures
        split_entry(line) == Some((line.take(i), line.skip(i + 2))),
{
    assert(contains_seq(line, separator()));
    let k = choose|k: int| first_occurrence(line, separator(), k);
    assert(k == i);
}

/// Parts a ledger line at its first `: ` into name and status.
pub fn parse_line(line: &str) -> (parts: Option<(String, String)>)
    ensures
        match parts {
            Some((name, status)) => split_entry(line@) == Some((name@, status@)),
            None => split_entry(line@).is_none(),
        },
{
    let v = to_chars(line);
    let n: usize = v.len();
    let sep: Vec<char> = vec![':', ' '];
    assert(sep@ =~= separator());
    match find_seq(&v, &sep, 0) {
        Some(i) => {
            assert(occurs_at(v@, sep@, i as int));
            assert(i + 2 <= n);
            proof {
                lemma_split_entry_at(line@, i as int);
                assert(v@.subrange(0, i as int) =~= line@.take(i as int));
                assert(v@.subrange(i + 2, v@.len() as int) =~= line@.skip(i + 2));
            }
            let name = slice_to_string(&v, 0, i);
            let status = slice_to_string(&v, i + 2, n);
            Some((name, status))
        },
        None => None,
    }
}

/// Whether `v` and `w` hold the same characters.
pub fn same_chars(v: &Vec<char>, w: &Vec<char>) -> (r: bool)
    ensures
        r == (v@ == w@),
{
    if v.len() != w.len() {
        return false;
    }
    let r = matches_at(v, w, 0);
    assert(v@.subrange(0, v@.len() as int) =~= v@);
    r
}

/// Finds the bucket that a status counts in.
pub fn classify(status: &str) -> (k: Option<Kind>)
    ensures
        k == status_kind(status@),
{
    let v = to_chars(status);
    let good: Vec<char> = vec!['g', 'o', 'o', 'd'];
    let bad: Vec<char> = vec!['b', 'a', 'd'];
    let na: Vec<char> = vec!['n', '/', 'a'];
    let error: Vec<char> = vec!['e', 'r', 'r', 'o', 'r'];
    assert(good@ =~= good_token());
    assert(bad@ =~= bad_token());
    assert(na@ =~= na_token());
    assert(error@ =~= error_word());
    if same_chars(&v, &good) {
        Some(Kind::Good)
    } else if same_chars(&v, &bad) {
        Some(Kind::Bad)
    } else if same_chars(&v, &na) {
        Some(Kind::NotAvailable)
    } else if matches_at(&v, &error, 0) {
        Some(Kind::Error)
    } else {
        None
    }
}

/// The names that need no further work.
pub struct SkipSet {
    names: StringHashSet,
}

impl View for SkipSet {
    type V = Set<Seq<char>>;

    closed spec fn view(&self) -> Set<Seq<char>> {
        self.names@
    }
}

impl SkipSet {
    /// The set without names.
    pub fn new() -> (s: SkipSet)
        ensures
            s@ == Set::<Seq<char>>::empty(),
    {
        SkipSet { names: StringHashSet::new() }
    }

    /// Adds `name` to the set.
    pub fn insert(&mut self, name: String)
        ensures
            final(self)@ == old(self)@.insert(name@),
    {
        let _ = self.names.insert(name);
    }

    /// Whether `name` is in the set.
    pub fn contains(&self, name: &str) -> (r: bool)
        ensures
            r == self@.contains(name@),
    {
        self.names.contains(name)
    }
}

/// One more line decides one more name, or none.
pub proof fn lemma_decided_push(lines: Seq<Seq<char>>, line: Seq<char>)
    ensures
        decided(lines.push(line)) == match entry_name(line) {
            Some(name) => decided(lines).insert(name),
            None => decided(lines),
        },
{
    let more = lines.push(line);
    let expected = match entry_name(line) {
        Some(name) => decided(lines).insert(name),
        None => decided(lines),
    };
    assert forall|n: Seq<char>| decided(more).contains(n) implies expected.contains(n) by {
        let i = choose|i: int| 0 <= i < more.len() && entry_name(#[trigger] more[i]) == Some(n);
        if i < lines.len() {
            assert(more[i] == lines[i]);
        }
    }
    assert forall|n: Seq<char>| expected.contains(n) implies decided(more).contains(n) by {
        if decided(lines).contains(n) {
            let i = choose|i: int|
                0 <= i < lines.len() && entry_name(#[trigger] lines[i]) == Some(n);
            assert(more[i] == lines[i]);
        } else {
            assert(more[lines.len() as int] == line);
        }
    }
    assert(decided(more) =~= expected);
}

/// One more line counts once in its bucket, if it has one, and nowhere else.
pub proof fn lemma_tally_push(lines: Seq<Seq<char>>, line: Seq<char>, k: Kind)
    ensures
        tally(lines.push(line), k) == tally(lines, k) + (if entry_kind(line) == Some(k) {
            1nat
        } else {
            0nat
        }),
{
    assert(lines.push(line).drop_last() =~= lines);
}

/// No bucket counts more lines than there are.
pub proof fn lemma_tally_bounded(lines: Seq<Seq<char>>)
    ensures
        tally(lines, Kind::Good) + tally(lines, Kind::Bad) + tally(lines, Kind::NotAvailable)
            + tally(lines, Kind::Error) <= lines.len(),
    decreases lines.len(),
{
    if lines.len() > 0 {
        lemma_tally_bounded(lines.drop_last());
    }
}

/// Replays the ledger `text`. Each line that holds `: ` decides the name
/// before it: the name is to be skipped, `src` forgets it, and the status
/// behind it is counted in its bucket, if it has one. A line without `: `
/// changes nothing. The source gains no name by it.
pub fn load_rec(text: &str, src: &mut Source) -> (r: (SkipSet, Counter))
    requires
        old(src).wf(),
    ensures
        final(src).wf(),
        r.0@ == decided(split_lines(text@)),
        final(src)@ == old(src)@.without_all(decided(split_lines(text@))),
        forall|k: Kind| #[trigger] r.1.count(k) == tally(split_lines(text@), k),
        names_nonempty(old(src)@.remaining()) ==> names_nonempty(final(src)@.remaining()),
{
    proof {
        src.lemma_finite();
        lemma_taking_all_keeps(src@, decided(split_lines(text@)));
    }
    let lines = lines_of(text);
    let ghost all = split_lines(text@);
    let mut skip = SkipSet::new();
    let mut counter = Counter::new();
    let mut i: usize = 0;
    proof {
        assert(all.take(0) =~= Seq::<Seq<char>>::empty());
        assert(decided(all.take(0)) =~= Set::<Seq<char>>::empty());
        assert(old(src)@.without_all(Set::<Seq<char>>::empty()) == old(src)@) by {
            if old(src)@ is List {
                assert(old(src)@->List_0.remove_keys(Set::<Seq<char>>::empty())
                    =~= old(src)@->List_0);
            }
        }
    }
    while i < lines.len()
        invariant
            i <= lines@.len(),
            all == views(lines@),
            src.wf(),
            skip@ == decided(all.take(i as int)),
            src@ == old(src)@.without_all(decided(all.take(i as int))),
            forall|k: Kind| #[trigger] counter.count(k) == tally(all.take(i as int), k),
        decreases lines@.len() - i,
    {
        let ghost seen = all.take(i as int);
        let ghost line = all[i as int];
        let ghost src_before = src@;
        proof {
            assert(all.take(i + 1) =~= seen.push(line));
            assert(line == lines@[i as int]@);
            lemma_decided_push(seen, line);
            lemma_tally_push(seen, line, Kind::Good);
            lemma_tally_push(seen, line, Kind::Bad);
            lemma_tally_push(seen, line, Kind::NotAvailable);
            lemma_tally_push(seen, line, Kind::Error);
            lemma_tally_bounded(all.take(i + 1));
        }
        match parse_line(lines[i].as_str()) {
            Some((name, status)) => {
                src.remove(name.as_str());
                proof {
                    if old(src)@ is List {
                        assert(old(src)@->List_0.remove_keys(decided(seen)).remove(name@)
                            =~= old(src)@->List_0.remove_keys(decided(seen).insert(name@)));
                    }
                }
                match classify(status.as_str()) {
                    Some(k) => {
                        counter.record(k);
                    },
                    None => {},
                }
                skip.insert(name);
            },
            None => {},
        }
        i += 1;
    }
    assert(all.take(lines@.len() as int) =~= all);
    (skip, counter)
}

/// A line made of a name, `: ` and a status parts into that name and that
/// status, provided the name itself holds no `: `.
pub proof fn lemma_split_entry_of_parts(name: Seq<char>, status: Seq<char>)
    requires
        !contains_seq(name, separator()),
    ensures
        split_entry(name + separator() + status) == Some((name, status)),
{
    let sep = separator();
    let line = name + sep + status;
    let at = name.len() as int;
    assert(line.subrange(at, at + 2) =~= sep);
    assert(occurs_at(line, sep, at));
    assert forall|j: int| 0 <= j < at implies !occurs_at(line, sep, j) by {
        if occurs_at(line, sep, j) {
            let found = line.subrange(j, j + 2);
            assert(found[0] == line[j] && found[1] == line[j + 1]);
            if j + 2 <= at {
                assert(name.subrange(j, j + 2) =~= sep);
                assert(occurs_at(name, sep, j));
            } else {
                assert(line[j + 1] == sep[0]);
            }
        }
    }
    lemma_split_entry_at(line, at);
    assert(line.take(at) =~= name);
    assert(line.skip(at + 2) =~= status);
}

/// The text form of an outcome counts in the bucket of that outcome, also
/// where a carriage return at its end was taken off.
pub proof fn lemma_rendered_kind(outcome: Outcome)
    ensures
        status_kind(outcome.rendered()) == Some(outcome.kind()),
        status_kind(strip_cr(outcome.rendered())) == Some(outcome.kind()),
{
    let r = outcome.rendered();
    let word = error_word();
    match outcome {
        Outcome::Good => {
            assert(r[0] == 'g' && r[3] == 'd');
        },
        Outcome::Bad => {
            assert(r[0] == 'b' && r[2] == 'd');
            assert(r.len() != good_token().len());
        },
        Outcome::NotAvailable => {
            assert(r[0] == 'n' && r[2] == 'a');
            assert(r.len() != good_token().len());
            assert(bad_token()[0] == 'b');
        },
        Outcome::Error(message) => {
            assert(r.len() >= 7);
            assert(r[0] == 'e');
            assert(good_token()[0] == 'g' && bad_token()[0] == 'b' && na_token()[0] == 'n');
            assert(r.subrange(0, 5) =~= word);
            let t = strip_cr(r);
            assert(t.len() >= 6);
            assert(t[0] == 'e');
            assert(t.subrange(0, 5) =~= word);
        },
    }
}

/// The text form of an outcome holds at least three characters.
pub proof fn lemma_rendered_len(outcome: Outcome)
    ensures
        outcome.rendered().len() >= 3,
{
}

/// Taking a carriage return off the end of a line takes it off its last
/// part, where that part is not empty.
pub proof fn lemma_strip_cr_of_parts(head: Seq<char>, status: Seq<char>)
    requires
        status.len() > 0,
    ensures
        strip_cr(head + status) == head + strip_cr(status),
{
    let line = head + status;
    assert(line.last() == status.last());
    if status.last() == '\r' {
        assert(line.drop_last() =~= head + status.drop_last());
    }
}

/// The line that records an outcome for a name is read back as that name
/// and counts in the bucket of that outcome, provided the name holds no
/// `: `. The same holds where a carriage return at the end of the line was
/// taken off.
pub proof fn lemma_entry_read_back(name: Seq<char>, outcome: Outcome)
    requires
        !contains_seq(name, separator()),
    ensures
        entry_name(entry_line(name, outcome)) == Some(name),
        entry_kind(entry_line(name, outcome)) == Some(outcome.kind()),
        entry_name(strip_cr(entry_line(name, outcome))) == Some(name),
        entry_kind(strip_cr(entry_line(name, outcome))) == Some(outcome.kind()),
{
    let r = outcome.rendered();
    let line = entry_line(name, outcome);
    lemma_rendered_kind(outcome);
    lemma_rendered_len(outcome);
    assert(split_entry(line) == Some((name, r))) by {
        lemma_split_entry_of_parts(name, r);
    }
    assert(strip_cr(line) == name + separator() + strip_cr(r)) by {
        lemma_strip_cr_of_parts(name + separator(), r);
    }
    assert(split_entry(strip_cr(line)) == Some((name, strip_cr(r)))) by {
        lemma_split_entry_of_parts(name, strip_cr(r));
    }
}

/// A name that a ledger holds a line for is skipped by every later run:
/// wherever the line that recorded it stands among the lines, the name is
/// among those that the lines decide.
pub proof fn lemma_recorded_name_is_decided(
    lines: Seq<Seq<char>>,
    i: int,
    name: Seq<char>,
    outcome: Outcome,
)
    requires
        0 <= i < lines.len(),
        lines[i] == entry_line(name, outcome),
        !contains_seq(name, separator()),
    ensures
        decided(lines).contains(name),
{
    lemma_entry_read_back(name, outcome);
}

/// The lines of two ledgers, one behind the other, decide what either
/// decides, and count what both count.
pub proof fn lemma_replay_concat(a: Seq<Seq<char>>, b: Seq<Seq<char>>, k: Kind)
    ensures
        decided(a + b) == decided(a).union(decided(b)),
        tally(a + b, k) == tally(a, k) + tally(b, k),
    decreases b.len(),
{
    if b.len() == 0 {
        assert(a + b =~= a);
        assert(decided(b) =~= Set::<Seq<char>>::empty());
        assert(decided(a).union(decided(b)) =~= decided(a));
    } else {
        let head = b.drop_last();
        let line = b.last();
        lemma_replay_concat(a, head, k);
        assert(a + b =~= (a + head).push(line));
        assert(b =~= head.push(line));
        lemma_decided_push(a + head, line);
        lemma_decided_push(head, line);
        lemma_tally_push(a + head, line, k);
        lemma_tally_push(head, line, k);
        assert(decided(a + b) =~= decided(a).union(decided(b)));
    }
}

/// A line without `: ` changes nothing: wherever it stands in a ledger, the
/// names decided and the counts are those of the ledger without it.
pub proof fn lemma_malformed_line_ignored(
    before: Seq<Seq<char>>,
    line: Seq<char>,
    after: Seq<Seq<char>>,
    k: Kind,
)
    requires
        !contains_seq(line, separator()),
    ensures
        decided(before + seq![line] + after) == decided(before + after),
        tally(before + seq![line] + after, k) == tally(before + after, k),
{
    let one = seq![line];
    assert(tally(one, k) == 0) by {
        assert(split_entry(line).is_none());
        assert(one =~= Seq::<Seq<char>>::empty().push(line));
        lemma_tally_push(Seq::<Seq<char>>::empty(), line, k);
        assert(tally(Seq::<Seq<char>>::empty(), k) == 0);
    }
    assert(decided(one) =~= Set::<Seq<char>>::empty()) by {
        assert forall|n: Seq<char>| !decided(one).contains(n) by {
            if decided(one).contains(n) {
                let i = choose|i: int|
                    0 <= i < one.len() && entry_name(#[trigger] one[i]) == Some(n);
                assert(one[i] == line);
            }
        }
    }
    lemma_replay_concat(before, one, k);
    lemma_replay_concat(before + one, after, k);
    lemma_replay_concat(before, after, k);
    assert(decided(before + one + after) =~= decided(before + after));
}

/// A line appended to a ledger, with its line feed, is one more line of it:
/// the lines before stay as they were. This holds of a ledger that is empty
/// or ends in a line feed, and of a line that holds no line feed. A carriage
/// return at the end of the line is not read back.
pub proof fn lemma_split_lines_append(text: Seq<char>, line: Seq<char>)
    requires
        text.len() == 0 || text.last() == '\n',
        !has_char(line, '\n'),
    ensures
        split_lines(text + line + seq!['\n']) == split_lines(text).push(strip_cr(line)),
    decreases text.len(),
{
    let s = text + line + seq!['\n'];
    if text.len() == 0 {
        let at = line.len() as int;
        assert(s[at] == '\n');
        assert(first_char(s, '\n', at)) by {
            assert forall|j: int| 0 <= j < at implies s[j] != '\n' by {
                assert(s[j] == line[j]);
            }
        }
        lemma_line_end_at(s, at);
        assert(s.take(at) =~= line);
        assert(s.skip(at + 1) =~= Seq::<char>::empty());
        assert(split_lines(s.skip(at + 1)) =~= Seq::<Seq<char>>::empty());
        assert(split_lines(text) =~= Seq::<Seq<char>>::empty());
        assert(seq![strip_cr(line)] + Seq::<Seq<char>>::empty() =~= Seq::<Seq<char>>::empty().push(
            strip_cr(line),
        ));
    } else {
        let last = text.len() - 1;
        assert(text[last] == '\n');
        crate::text::lemma_first_char_exists(text, '\n', last);
        let i = choose|i: int| 0 <= i <= last && first_char(text, '\n', i);
        lemma_line_end_at(text, i);
        assert(first_char(s, '\n', i)) by {
            assert(s[i] == text[i]);
            assert forall|j: int| 0 <= j < i implies s[j] != '\n' by {
                assert(s[j] == text[j]);
            }
        }
        lemma_line_end_at(s, i);
        let rest = text.skip(i + 1);
        assert(s.take(i) =~= text.take(i));
        assert(s.skip(i + 1) =~= rest + line + seq!['\n']);
        if rest.len() > 0 {
            assert(rest.last() == text.last());
        }
        lemma_split_lines_append(rest, line);
        let first = seq![strip_cr(text.take(i))];
        assert(first + split_lines(rest).push(strip_cr(line)) =~= (first + split_lines(rest)).push(
            strip_cr(line),
        ));
    }
}

/// Resuming is idempotent. Once the line that records an outcome for a name
/// was appended to a ledger, a replay of the ledger decides that name, so
/// that it is skipped and no second line is written for it; it counts the
/// outcome once in its bucket; and it decides and counts what the ledger
/// held before as before. This holds of a ledger that is empty or ends in a
/// line feed, of a name that holds no `: `, and of a line that holds no line
/// feed.
pub proof fn lemma_resume_after_append(
    text: Seq<char>,
    name: Seq<char>,
    outcome: Outcome,
    k: Kind,
)
    requires
        text.len() == 0 || text.last() == '\n',
        !contains_seq(name, separator()),
        !has_char(entry_line(name, outcome), '\n'),
    ensures
        decided(split_lines(text + entry_line(name, outcome) + seq!['\n'])) == decided(
            split_lines(text),
        ).insert(name),
        tally(split_lines(text + entry_line(name, outcome) + seq!['\n']), k) == tally(
            split_lines(text),
            k,
        ) + (if outcome.kind() == k {
            1nat
        } else {
            0nat
        }),
{
    let line = entry_line(name, outcome);
    lemma_split_lines_append(text, line);
    lemma_entry_read_back(name, outcome);
    lemma_decided_push(split_lines(text), strip_cr(line));
    lemma_tally_push(split_lines(text), strip_cr(line), k);
}

} // verus!
