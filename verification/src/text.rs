//! Character-level helpers on text, stated over sequences of characters.

use vstd::prelude::*;

verus! {

/// Whether `pat` occurs in `s` starting at position `i`.
pub open spec fn occurs_at(s: Seq<char>, pat: Seq<char>, i: int) -> bool {
    &&& 0 <= i
    &&& i + pat.len() <= s.len()
    &&& s.subrange(i, i + pat.len()) == pat
}

/// Whether `pat` occurs somewhere in `s`.
pub open spec fn contains_seq(s: Seq<char>, pat: Seq<char>) -> bool {
    exists|i: int| occurs_at(s, pat, i)
}

/// Whether `s` begins with `pat`.
pub open spec fn starts_with_seq(s: Seq<char>, pat: Seq<char>) -> bool {
    occurs_at(s, pat, 0)
}

/// Whether `i` is the first position at which `pat` occurs in `s`.
pub open spec fn first_occurrence(s: Seq<char>, pat: Seq<char>, i: int) -> bool {
    &&& occurs_at(s, pat, i)
    &&& forall|j: int| 0 <= j < i ==> !occurs_at(s, pat, j)
}

/// Whether `i` is the first position of the character `c` in `s`.
pub open spec fn first_char(s: Seq<char>, c: char, i: int) -> bool {
    &&& 0 <= i < s.len()
    &&& s[i] == c
    &&& forall|j: int| 0 <= j < i ==> s[j] != c
}

/// Whether `i` is the last position of the character `c` in `s`.
pub open spec fn last_char(s: Seq<char>, c: char, i: int) -> bool {
    &&& 0 <= i < s.len()
    &&& s[i] == c
    &&& forall|j: int| i < j < s.len() ==> s[j] != c
}

/// Whether the character `c` occurs in `s`.
pub open spec fn has_char(s: Seq<char>, c: char) -> bool {
    exists|i: int| 0 <= i < s.len() && s[i] == c
}

/// The position of the first line feed of `s`; the length of `s` where it
/// holds none.
pub open spec fn line_end(s: Seq<char>) -> int {
    if has_char(s, '\n') {
        choose|i: int| first_char(s, '\n', i)
    } else {
        s.len() as int
    }
}

/// `s` without one carriage return at its end, if it ends in one.
pub open spec fn strip_cr(s: Seq<char>) -> Seq<char> {
    if s.len() > 0 && s.last() == '\r' {
        s.drop_last()
    } else {
        s
    }
}

/// The lines of `s`. A line ends at a line feed, or at a carriage return
/// directly followed by one; neither belongs to the line. What follows the
/// last line feed is a line too, unless it is empty, and is taken as it is.
pub open spec fn split_lines(s: Seq<char>) -> Seq<Seq<char>>
    decreases s.len(),
{
    if s.len() == 0 {
        Seq::empty()
    } else {
        let i = line_end(s);
        if 0 <= i < s.len() {
            seq![strip_cr(s.take(i))] + split_lines(s.skip(i + 1))
        } else {
            seq![s]
        }
    }
}

/// The texts held by `v`, as sequences of characters.
pub open spec fn views(v: Seq<String>) -> Seq<Seq<char>> {
    Seq::new(v.len(), |i: int| v[i]@)
}

/// A character that occurs at `n` occurs first somewhere at or before `n`.
pub proof fn lemma_first_char_exists(s: Seq<char>, c: char, n: int)
    requires
        0 <= n < s.len(),
        s[n] == c,
    ensures
        exists|i: int| 0 <= i <= n && first_char(s, c, i),
    decreases n,
{
    if exists|j: int| 0 <= j < n && s[j] == c {
        let j = choose|j: int| 0 <= j < n && s[j] == c;
        lemma_first_char_exists(s, c, j);
    } else {
        assert(first_char(s, c, n));
    }
}

/// A character that occurs at `n` occurs last somewhere at or after `n`.
pub proof fn lemma_last_char_exists(s: Seq<char>, c: char, n: int)
    requires
        0 <= n < s.len(),
        s[n] == c,
    ensures
        exists|i: int| n <= i < s.len() && last_char(s, c, i),
    decreases s.len() - n,
{
    if exists|j: int| n < j < s.len() && s[j] == c {
        let j = choose|j: int| n < j < s.len() && s[j] == c;
        lemma_last_char_exists(s, c, j);
    } else {
        assert(last_char(s, c, n));
    }
}

/// The characters of `s`, in order.
pub fn to_chars(s: &str) -> (v: Vec<char>)
    ensures
        v@ == s@,
{
    let mut v: Vec<char> = Vec::new();
    for c in it: s.chars()
        invariant
            v@.len() == it.index(),
            forall|j: int| 0 <= j < v@.len() ==> v@[j] == it.seq()[j],
            it.seq() == s@,
    {
        v.push(c);
    }
    assert(v@ =~= s@);
    v
}

/// `String::push` of the standard library: it appends the character `c` to the
/// end of the string and leaves what was there as it was.
pub assume_specification[ String::push ](s: &mut String, c: char)
    ensures
        final(s)@ == old(s)@.push(c),
;

/// The text made of the characters of `v` from `from` up to, not including,
/// `to`.
pub fn slice_to_string(v: &Vec<char>, from: usize, to: usize) -> (s: String)
    requires
        from <= to <= v@.len(),
    ensures
        s@ == v@.subrange(from as int, to as int),
{
    let mut s = String::new();
    let mut i: usize = from;
    while i < to
        invariant
            from <= i <= to <= v@.len(),
            s@ == v@.subrange(from as int, i as int),
        decreases to - i,
    {
        s.push(v[i]);
        assert(v@.subrange(from as int, i + 1) =~= v@.subrange(from as int, i as int).push(
            v@[i as int],
        ));
        i += 1;
    }
    s
}

/// The first position of `c` in `v` at or after `from`, if there is one.
pub fn find_char(v: &Vec<char>, c: char, from: usize) -> (r: Option<usize>)
    requires
        from <= v@.len(),
    ensures
        match r {
            Some(i) => from <= i < v@.len() && v@[i as int] == c && forall|j: int|
                from <= j < i ==> v@[j] != c,
            None => forall|j: int| from <= j < v@.len() ==> v@[j] != c,
        },
{
    let mut i: usize = from;
    while i < v.len()
        invariant
            from <= i <= v@.len(),
            forall|j: int| from <= j < i ==> v@[j] != c,
        decreases v@.len() - i,
    {
        if v[i] == c {
            return Some(i);
        }
        i += 1;
    }
    None
}

/// The last position of `c` in `v`, if there is one.
pub fn rfind_char(v: &Vec<char>, c: char) -> (r: Option<usize>)
    ensures
        match r {
            Some(i) => last_char(v@, c, i as int),
            None => !has_char(v@, c),
        },
{
    let mut i: usize = v.len();
    while i > 0
        invariant
            i <= v@.len(),
            forall|j: int| i <= j < v@.len() ==> v@[j] != c,
        decreases i,
    {
        i -= 1;
        if v[i] == c {
            return Some(i);
        }
    }
    None
}

/// Whether `pat` occurs in `v` at position `i`.
pub fn matches_at(v: &Vec<char>, pat: &Vec<char>, i: usize) -> (r: bool)
    ensures
        r == occurs_at(v@, pat@, i as int),
{
    if pat.len() > v.len() || i > v.len() - pat.len() {
        return false;
    }
    let mut k: usize = 0;
    while k < pat.len()
        invariant
            k <= pat.len(),
            i + pat.len() <= v.len() <= usize::MAX,
            forall|j: int| 0 <= j < k ==> v@[i + j] == pat@[j],
        decreases pat@.len() - k,
    {
        if v[i + k] != pat[k] {
            proof {
                let w = v@.subrange(i as int, i + pat@.len());
                assert(w[k as int] == v@[i + k]);
            }
            return false;
        }
        k += 1;
    }
    assert(v@.subrange(i as int, i + pat@.len()) =~= pat@);
    true
}

/// The first position at or after `from` at which `pat` occurs in `v`, if
/// there is one.
pub fn find_seq(v: &Vec<char>, pat: &Vec<char>, from: usize) -> (r: Option<usize>)
    ensures
        match r {
            Some(i) => from <= i && occurs_at(v@, pat@, i as int) && forall|j: int|
                from <= j < i ==> !occurs_at(v@, pat@, j),
            None => forall|j: int| from <= j ==> !occurs_at(v@, pat@, j),
        },
{
    if pat.len() > v.len() || from > v.len() - pat.len() {
        return None;
    }
    let last: usize = v.len() - pat.len();
    let mut i: usize = from;
    loop
        invariant
            from <= i <= last,
            last == v.len() - pat.len(),
            forall|j: int| from <= j < i ==> !occurs_at(v@, pat@, j),
        decreases last - i,
    {
        if matches_at(v, pat, i) {
            return Some(i);
        }
        if i == last {
            return None;
        }
        i += 1;
    }
}

/// Where the line feed occurs first at `i`, the first line ends there.
pub proof fn lemma_line_end_at(s: Seq<char>, i: int)
    requires
        first_char(s, '\n', i),
    ensures
        line_end(s) == i,
{
    assert(has_char(s, '\n'));
    let k = choose|k: int| first_char(s, '\n', k);
    assert(k == i);
}

/// Splits `text` into its lines.
pub fn lines_of(text: &str) -> (lines: Vec<String>)
    ensures
        views(lines@) == split_lines(text@),
{
    let v = to_chars(text);
    let n: usize = v.len();
    let mut lines: Vec<String> = Vec::new();
    let mut pos: usize = 0;
    proof {
        assert(v@.skip(0) =~= text@);
        assert(views(lines@) + split_lines(text@) =~= split_lines(text@));
    }
    while pos < n
        invariant
            pos <= n,
            n == v@.len(),
            v@ == text@,
            split_lines(text@) == views(lines@) + split_lines(v@.skip(pos as int)),
        decreases n - pos,
    {
        let ghost rest = v@.skip(pos as int);
        let ghost before = views(lines@);
        match find_char(&v, '\n', pos) {
            Some(j) => {
                proof {
                    assert(first_char(rest, '\n', j - pos)) by {
                        assert forall|k: int| 0 <= k < j - pos implies rest[k] != '\n' by {
                            assert(rest[k] == v@[pos + k]);
                        }
                    }
                    lemma_line_end_at(rest, j - pos);
                    assert(rest.take(j - pos) =~= v@.subrange(pos as int, j as int));
                    assert(rest.skip(j - pos + 1) =~= v@.skip(j + 1));
                }
                let end: usize = if j > pos && v[j - 1] == '\r' {
                    j - 1
                } else {
                    j
                };
                assert(v@.subrange(pos as int, end as int) =~= strip_cr(
                    v@.subrange(pos as int, j as int),
                ));
                let line = slice_to_string(&v, pos, end);
                lines.push(line);
                assert(views(lines@) =~= before + seq![line@]);
                assert(before + (seq![line@] + split_lines(v@.skip(j + 1))) =~= (before
                    + seq![line@]) + split_lines(v@.skip(j + 1)));
                pos = j + 1;
            },
            None => {
                proof {
                    assert(!has_char(rest, '\n')) by {
                        assert forall|k: int| 0 <= k < rest.len() implies rest[k] != '\n' by {
                            assert(rest[k] == v@[pos + k]);
                        }
                    }
                    assert(rest =~= v@.subrange(pos as int, n as int));
                    assert(v@.skip(n as int).len() == 0);
                }
                let line = slice_to_string(&v, pos, n);
                lines.push(line);
                assert(views(lines@) =~= before + seq![line@]);
                assert(before + seq![line@] =~= (before + seq![line@]) + split_lines(
                    v@.skip(n as int),
                ));
                pos = n;
            },
        }
    }
    assert(v@.skip(pos as int).len() == 0);
    assert(views(lines@) + Seq::<Seq<char>>::empty() =~= views(lines@));
    lines
}

} // verus!
