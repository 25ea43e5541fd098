//! The name under which a local file, a remote URL and a ledger entry meet.

use crate::text::{
    find_char, first_char, has_char, last_char, lemma_first_char_exists, lemma_last_char_exists,
    rfind_char, slice_to_string, to_chars,
};
use vstd::prelude::*;

verus! {

/// What follows the last `/` of `s`; all of `s` where it holds none.
pub open spec fn after_last_slash(s: Seq<char>) -> Seq<char> {
    if has_char(s, '/') {
        s.skip((choose|i: int| last_char(s, '/', i)) + 1)
    } else {
        s
    }
}

/// What precedes the first `?` of `s`; all of `s` where it holds none.
pub open spec fn before_query(s: Seq<char>) -> Seq<char> {
    if has_char(s, '?') {
        s.take(choose|i: int| first_char(s, '?', i))
    } else {
        s
    }
}

/// The name that a path or URL stands for: its last path segment, without a
/// query string.
pub open spec fn name_spec(s: Seq<char>) -> Seq<char> {
    before_query(after_last_slash(s))
}

/// Where `/` occurs last at `i`, the tail starts right behind it.
pub proof fn lemma_after_last_slash_at(s: Seq<char>, i: int)
    requires
        last_char(s, '/', i),
    ensures
        after_last_slash(s) == s.skip(i + 1),
{
    assert(has_char(s, '/'));
    let k = choose|k: int| last_char(s, '/', k);
    assert(k == i);
}

/// Where `?` occurs first at `i`, the head ends right before it.
pub proof fn lemma_before_query_at(s: Seq<char>, i: int)
    requires
        first_char(s, '?', i),
    ensures
        before_query(s) == s.take(i),
{
    assert(has_char(s, '?'));
    let k = choose|k: int| first_char(s, '?', k);
    assert(k == i);
}

/// Derives the name of a path or URL.
pub fn name_of(s: &str) -> (name: String)
    ensures
        name@ == name_spec(s@),
{
    let v = to_chars(s);
    let n: usize = v.len();
    let start: usize = match rfind_char(&v, '/') {
        Some(i) => {
            proof {
                lemma_after_last_slash_at(s@, i as int);
            }
            i + 1
        },
        None => 0,
    };
    let ghost tail = s@.skip(start as int);
    assert(tail == after_last_slash(s@));
    let end: usize = match find_char(&v, '?', start) {
        Some(j) => {
            proof {
                assert(first_char(tail, '?', j - start)) by {
                    assert forall|k: int| 0 <= k < j - start implies tail[k] != '?' by {
                        assert(tail[k] == s@[start + k]);
                    }
                }
                lemma_before_query_at(tail, j - start);
                assert(tail.take(j - start) =~= s@.subrange(start as int, j as int));
            }
            j
        },
        None => {
            proof {
                assert(!has_char(tail, '?')) by {
                    assert forall|k: int| 0 <= k < tail.len() implies tail[k] != '?' by {
                        assert(tail[k] == s@[start + k]);
                    }
                }
                assert(tail =~= s@.subrange(start as int, s@.len() as int));
            }
            n
        },
    };
    assert(v@.subrange(start as int, end as int) == name_spec(s@));
    slice_to_string(&v, start, end)
}

/// A name holds neither a path separator nor a query mark.
pub proof fn lemma_name_has_no_separator(s: Seq<char>)
    ensures
        !has_char(name_spec(s), '/'),
        !has_char(name_spec(s), '?'),
{
    let tail = after_last_slash(s);
    assert(!has_char(tail, '/')) by {
        if has_char(s, '/') {
            let w = choose|w: int| 0 <= w < s.len() && s[w] == '/';
            lemma_last_char_exists(s, '/', w);
            let i = choose|i: int| last_char(s, '/', i);
            assert forall|k: int| 0 <= k < tail.len() implies tail[k] != '/' by {
                assert(tail[k] == s[i + 1 + k]);
            }
        }
    }
    let name = before_query(tail);
    if has_char(tail, '?') {
        let w = choose|w: int| 0 <= w < tail.len() && tail[w] == '?';
        lemma_first_char_exists(tail, '?', w);
        let j = choose|j: int| first_char(tail, '?', j);
        assert forall|k: int| 0 <= k < name.len() implies name[k] != '?' && name[k] != '/' by {
            assert(name[k] == tail[k]);
        }
    }
}

/// Text without a path separator and without a query mark is its own name.
pub proof fn lemma_name_of_plain(s: Seq<char>)
    requires
        !has_char(s, '/'),
        !has_char(s, '?'),
    ensures
        name_spec(s) == s,
{
}

/// Deriving the name of a name changes nothing.
pub proof fn lemma_name_idempotent(s: Seq<char>)
    ensures
        name_spec(name_spec(s)) == name_spec(s),
{
    lemma_name_has_no_separator(s);
    lemma_name_of_plain(name_spec(s));
}

} // verus!
