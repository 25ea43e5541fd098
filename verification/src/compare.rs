//! Comparison of streamed remote content with a local file, chunk by chunk.

use crate::outcome::Outcome;
use vstd::prelude::*;

verus! {

/// How far a comparison has come.
pub struct Progress {
    /// How many bytes of the local file were read.
    pub consumed: nat,
    /// Whether every chunk so far was met by the same bytes of the file.
    pub matching: bool,
}

/// The progress before the first chunk.
pub open spec fn start() -> Progress {
    Progress { consumed: 0, matching: true }
}

/// The progress after one more chunk: `remote` came, and `local` is what the
/// file gave where as many bytes were asked of it. The chunk matches only
/// where the two are the same. A mismatch stays.
pub open spec fn fed(p: Progress, remote: Seq<u8>, local: Seq<u8>) -> Progress {
    Progress {
        consumed: if p.consumed + local.len() <= u64::MAX {
            p.consumed + local.len()
        } else {
            u64::MAX as nat
        },
        matching: p.matching && local == remote && p.consumed + local.len() <= u64::MAX,
    }
}

/// Whether a comparison that came as far as `p` finds the remote content to
/// be a file of `len` bytes: no chunk failed to match, and the file was read
/// to its end.
pub open spec fn verdict(p: Progress, len: nat) -> bool {
    p.matching && p.consumed == len
}

/// What a file holding `file` gives to a read of `want` bytes at `pos`: the
/// bytes from there on, as many as were asked for or as are left.
pub open spec fn read_at(file: Seq<u8>, pos: nat, want: nat) -> Seq<u8> {
    if pos >= file.len() {
        Seq::empty()
    } else if pos + want <= file.len() {
        file.subrange(pos as int, (pos + want) as int)
    } else {
        file.subrange(pos as int, file.len() as int)
    }
}

/// The progress of comparing the file `file` with the chunks `chunks`, each
/// chunk met by a read of its length where the one before left off.
pub open spec fn run(file: Seq<u8>, chunks: Seq<Seq<u8>>) -> Progress
    decreases chunks.len(),
{
    if chunks.len() == 0 {
        start()
    } else {
        let p = run(file, chunks.drop_last());
        fed(p, chunks.last(), read_at(file, p.consumed, chunks.last().len()))
    }
}

/// The content that the chunks make up, one behind the other.
pub open spec fn concat(chunks: Seq<Seq<u8>>) -> Seq<u8>
    decreases chunks.len(),
{
    if chunks.len() == 0 {
        Seq::empty()
    } else {
        concat(chunks.drop_last()) + chunks.last()
    }
}

/// Whether `a` is how `b` begins.
pub open spec fn is_prefix(a: Seq<u8>, b: Seq<u8>) -> bool {
    a.len() <= b.len() && b.subrange(0, a.len() as int) == a
}

/// A comparison in progress.
pub struct Comparator {
    consumed: u64,
    matching: bool,
}

impl View for Comparator {
    type V = Progress;

    closed spec fn view(&self) -> Progress {
        Progress { consumed: self.consumed as nat, matching: self.matching }
    }
}

/// Whether `a` and `b` hold the same bytes.
pub fn same_bytes(a: &[u8], b: &[u8]) -> (r: bool)
    ensures
        r == (a@ == b@),
{
    if a.len() != b.len() {
        return false;
    }
    let mut i: usize = 0;
    while i < a.len()
        invariant
            i <= a@.len(),
            a@.len() == b@.len(),
            forall|j: int| 0 <= j < i ==> a@[j] == b@[j],
        decreases a@.len() - i,
    {
        if a[i] != b[i] {
            return false;
        }
        i += 1;
    }
    assert(a@ =~= b@);
    true
}

impl Comparator {
    /// A comparison before its first chunk.
    pub fn new() -> (c: Comparator)
        ensures
            c@ == start(),
    {
        Comparator { consumed: 0, matching: true }
    }

    /// Takes the next chunk: `remote` came, and `local` is what the file
    /// gave where `remote.len()` bytes were asked of it. Returns whether
    /// every chunk so far matched.
    pub fn feed(&mut self, remote: &[u8], local: &[u8]) -> (matching: bool)
        ensures
            final(self)@ == fed(old(self)@, remote@, local@),
            matching == final(self)@.matching,
    {
        let n: usize = local.len();
        if n as u64 > u64::MAX - self.consumed {
            self.consumed = u64::MAX;
            self.matching = false;
        } else {
            self.consumed = self.consumed + n as u64;
            if self.matching && !same_bytes(local, remote) {
                self.matching = false;
            }
        }
        self.matching
    }

    /// How many bytes of the local file were read so far.
    pub fn consumed(&self) -> (n: u64)
        ensures
            n == self@.consumed,
    {
        self.consumed
    }

    /// Whether every chunk so far matched.
    pub fn is_matching(&self) -> (m: bool)
        ensures
            m == self@.matching,
    {
        self.matching
    }

    /// Ends the comparison for a local file of `len` bytes: `Good` where no
    /// chunk failed to match and the file was read to its end, else `Bad`.
    pub fn finish(&self, len: u64) -> (o: Outcome)
        ensures
            o is Good <==> verdict(self@, len as nat),
            o is Bad <==> !verdict(self@, len as nat),
    {
        if self.matching && self.consumed == len {
            Outcome::Good
        } else {
            Outcome::Bad
        }
    }
}

/// How a comparison stands after any number of chunks: it has read no more
/// than the file holds; it still matches exactly where the content so far is
/// how the file begins; and then it has read as much as came.
pub proof fn lemma_run_tracks_prefix(file: Seq<u8>, chunks: Seq<Seq<u8>>)
    requires
        file.len() <= u64::MAX,
    ensures
        run(file, chunks).consumed <= file.len(),
        run(file, chunks).matching <==> is_prefix(concat(chunks), file),
        run(file, chunks).matching ==> run(file, chunks).consumed == concat(chunks).len(),
    decreases chunks.len(),
{
    if chunks.len() == 0 {
        assert(file.subrange(0, 0) =~= Seq::<u8>::empty());
    } else {
        let head = chunks.drop_last();
        let chunk = chunks.last();
        lemma_run_tracks_prefix(file, head);
        let p = run(file, head);
        let c = concat(head);
        let local = read_at(file, p.consumed, chunk.len());
        let all = c + chunk;
        if p.matching {
            if c.len() + chunk.len() <= file.len() {
                assert(local == file.subrange(c.len() as int, (c.len() + chunk.len()) as int));
                if local == chunk {
                    assert(file.subrange(0, all.len() as int) =~= all);
                } else {
                    if is_prefix(all, file) {
                        assert(file.subrange(c.len() as int, (c.len() + chunk.len()) as int) =~= chunk) by {
                            assert forall|j: int| 0 <= j < chunk.len() implies file[c.len() + j]
                                == chunk[j] by {
                                assert(file.subrange(0, all.len() as int)[c.len() + j] == all[c.len()
                                    + j]);
                            }
                        }
                    }
                }
            } else {
                assert(local.len() < chunk.len());
            }
        } else {
            if is_prefix(all, file) {
                assert(file.subrange(0, c.len() as int) =~= c) by {
                    assert forall|j: int| 0 <= j < c.len() implies file[j] == c[j] by {
                        assert(file.subrange(0, all.len() as int)[j] == all[j]);
                    }
                }
            }
        }
    }
}

/// The comparison finds the remote content good exactly where it is the
/// file: the same bytes, as many as the file holds, however the content was
/// cut into chunks.
pub proof fn lemma_good_iff_identical(file: Seq<u8>, chunks: Seq<Seq<u8>>)
    requires
        file.len() <= u64::MAX,
    ensures
        verdict(run(file, chunks), file.len()) <==> concat(chunks) == file,
{
    lemma_run_tracks_prefix(file, chunks);
    let c = concat(chunks);
    if is_prefix(c, file) && c.len() == file.len() {
        assert(file.subrange(0, file.len() as int) =~= file);
    }
    if c == file {
        assert(file.subrange(0, file.len() as int) =~= file);
    }
}

/// Content that differs from the file in one byte is not found good.
pub proof fn lemma_changed_byte_is_bad(file: Seq<u8>, chunks: Seq<Seq<u8>>, i: int)
    requires
        file.len() <= u64::MAX,
        0 <= i < file.len(),
        i < concat(chunks).len(),
        concat(chunks)[i] != file[i],
    ensures
        !verdict(run(file, chunks), file.len()),
{
    lemma_good_iff_identical(file, chunks);
}

/// Content shorter than the file is not found good, even where it is how
/// the file begins.
pub proof fn lemma_shorter_content_is_bad(file: Seq<u8>, chunks: Seq<Seq<u8>>)
    requires
        file.len() <= u64::MAX,
        concat(chunks).len() < file.len(),
    ensures
        !verdict(run(file, chunks), file.len()),
{
    lemma_good_iff_identical(file, chunks);
}

} // verus!
