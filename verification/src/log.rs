//! The log store contract: an append-only, 1-indexed entry log with a
//! committed boundary, range scans, and a small metadata map.

use crate::error::Error;
use vstd::prelude::*;

verus! {

/// One end of a scan range over 1-based entry indexes.
#[derive(Clone, Copy, Debug)]
pub enum Bound {
    Included(u64),
    Excluded(u64),
    Unbounded,
}

/// A scan range, with owned bounds so that it can be stored and passed
/// across the store boundary.
#[derive(Clone, Copy, Debug)]
pub struct Range {
    pub start: Bound,
    pub end: Bound,
}

impl Range {
    /// Creates a new range from the given bounds.
    pub fn from(start: Bound, end: Bound) -> (r: Range)
        ensures
            r.start == start,
            r.end == end,
    {
        Range { start, end }
    }
}

/// The first 1-based index a range admits. `Included(0)` collapses to 1,
/// since index 0 is never a real entry.
pub open spec fn resolved_start(r: Range) -> int {
    match r.start {
        Bound::Included(n) => if n == 0 {
            1
        } else {
            n as int
        },
        Bound::Excluded(n) => n as int + 1,
        Bound::Unbounded => 1,
    }
}

/// The last 1-based index a range admits, given the current length.
pub open spec fn resolved_end(r: Range, len: int) -> int {
    match r.end {
        Bound::Included(n) => n as int,
        Bound::Excluded(n) => if n == 0 {
            0
        } else {
            n as int - 1
        },
        Bound::Unbounded => len,
    }
}

/// The deep view of a list of byte entries.
pub open spec fn bytes_view(s: Seq<Vec<u8>>) -> Seq<Seq<u8>> {
    s.map(|i: int, v: Vec<u8>| v@)
}

pub proof fn lemma_bytes_view_subrange(s: Seq<Vec<u8>>, i: int, j: int)
    requires
        0 <= i <= j <= s.len(),
    ensures
        bytes_view(s.subrange(i, j)) == bytes_view(s).subrange(i, j),
{
    assert(bytes_view(s.subrange(i, j)) =~= bytes_view(s).subrange(i, j));
}

/// The entries a scan yields: those whose index falls in the resolved
/// window, clamped to `[1, len]`, in index order; empty if the window is.
pub open spec fn scan_window(es: Seq<Seq<u8>>, r: Range) -> Seq<Seq<u8>> {
    let lo = resolved_start(r);
    let hi = vstd::math::min(resolved_end(r, es.len() as int), es.len() as int);
    if lo > hi {
        Seq::<Seq<u8>>::empty()
    } else {
        es.subrange(lo - 1, hi)
    }
}

/// The sum of the entries' payload lengths.
pub open spec fn sum_lens(es: Seq<Seq<u8>>) -> int
    decreases es.len(),
{
    if es.len() == 0 {
        0
    } else {
        es.first().len() + sum_lens(es.drop_first())
    }
}

pub proof fn lemma_sum_lens_nonneg(es: Seq<Seq<u8>>)
    ensures
        sum_lens(es) >= 0,
    decreases es.len(),
{
    if es.len() > 0 {
        lemma_sum_lens_nonneg(es.drop_first());
    }
}

pub proof fn lemma_sum_lens_push(es: Seq<Seq<u8>>, e: Seq<u8>)
    ensures
        sum_lens(es.push(e)) == sum_lens(es) + e.len(),
    decreases es.len(),
{
    if es.len() == 0 {
        assert(es.push(e).drop_first() =~= Seq::<Seq<u8>>::empty());
        assert(es.push(e).first() == e);
        assert(sum_lens(es.push(e)) == e.len() + sum_lens(Seq::<Seq<u8>>::empty()));
    } else {
        lemma_sum_lens_push(es.drop_first(), e);
        assert(es.push(e).first() == es.first());
        assert(es.push(e).drop_first() =~= es.drop_first().push(e));
    }
}

pub proof fn lemma_sum_lens_prefix(es: Seq<Seq<u8>>, i: int, j: int)
    requires
        0 <= i <= j <= es.len(),
    ensures
        sum_lens(es.take(i)) <= sum_lens(es.take(j)),
    decreases j - i,
{
    if i < j {
        lemma_sum_lens_prefix(es, i, j - 1);
        assert(es.take(j).drop_last() =~= es.take(j - 1));
        assert(es.take(j) =~= es.take(j - 1).push(es[j - 1]));
        lemma_sum_lens_push(es.take(j - 1), es[j - 1]);
    }
}

/// A log store. Entry indexes are 1-based, to match Raft semantics; the
/// committed boundary separates durable, immutable entries from the
/// volatile uncommitted suffix.
pub trait Store: Sized {
    /// All entries in index order: entry `i` stands at position `i - 1`.
    spec fn entries(&self) -> Seq<Seq<u8>>;

    /// How many entries are committed.
    spec fn committed_ix(&self) -> int;

    /// The metadata map.
    spec fn meta(&self) -> Map<Seq<u8>, Seq<u8>>;

    /// The durable byte footprint the backend reports.
    spec fn size_spec(&self) -> int;

    /// The backend's representation invariant.
    spec fn wf(&self) -> bool;

    /// The committed boundary never passes the end, and the length fits
    /// the index type.
    proof fn lemma_wf(&self)
        requires
            self.wf(),
        ensures
            0 <= self.committed_ix() <= self.entries().len(),
            self.entries().len() <= u64::MAX,
            self.size_spec() >= 0,
    ;

    /// Appends a log entry, returning its index.
    fn append(&mut self, entry: Vec<u8>) -> (r: Result<u64, Error>)
        requires
            old(self).wf(),
            entry@.len() <= u32::MAX,
            old(self).entries().len() < u64::MAX,
        ensures
            final(self).wf(),
            final(self).entries() == old(self).entries().push(entry@),
            final(self).committed_ix() == old(self).committed_ix(),
            final(self).meta() == old(self).meta(),
            final(self).size_spec() == old(self).size_spec(),
            r == Ok::<u64, Error>((old(self).entries().len() + 1) as u64),
    ;

    /// Commits entries up to and including the given index, making them
    /// immutable. Fails for an index beyond the end or below the committed
    /// boundary; committing the boundary itself is a no-op.
    fn commit(&mut self, index: u64) -> (r: Result<(), Error>)
        requires
            old(self).wf(),
        ensures
            final(self).wf(),
            final(self).entries() == old(self).entries(),
            final(self).meta() == old(self).meta(),
            r is Ok <==> old(self).committed_ix() <= index <= old(self).entries().len(),
            r is Ok ==> final(self).committed_ix() == index,
            r matches Err(e) ==> e matches Error::Internal(_) && *final(self) == *old(self),
            index == old(self).committed_ix() ==> *final(self) == *old(self),
    ;

    /// Returns the committed index, or 0 if no entry is committed.
    fn committed(&self) -> (r: u64)
        requires
            self.wf(),
        ensures
            r == self.committed_ix(),
    ;

    /// Fetches an entry if it exists. Index 0 is the "no entry" sentinel.
    fn get(&self, index: u64) -> (r: Result<Option<Vec<u8>>, Error>)
        requires
            self.wf(),
        ensures
            match r {
                Ok(Some(v)) => 1 <= index <= self.entries().len() && v@ == self.entries()[index
                    - 1],
                Ok(None) => index == 0 || index > self.entries().len(),
                Err(_) => false,
            },
    ;

    /// Returns the number of entries in the log.
    fn len(&self) -> (r: u64)
        requires
            self.wf(),
        ensures
            r == self.entries().len(),
    ;

    /// Scans the log over the resolved range, in index order, transparently
    /// spanning committed and uncommitted entries.
    fn scan(&self, range: Range) -> (r: Vec<Vec<u8>>)
        requires
            self.wf(),
        ensures
            bytes_view(r@) == scan_window(self.entries(), range),
    ;

    /// Returns the size of the log in bytes: the durable footprint of the
    /// committed data only, not counting uncommitted entries.
    fn size(&self) -> (r: u64)
        requires
            self.wf(),
            self.size_spec() <= u64::MAX,
        ensures
            r == self.size_spec(),
    ;

    /// Truncates the log by removing entries above the given index and
    /// returns the new highest index. Fails when asked to truncate any
    /// committed entry; the committed prefix is never touched.
    fn truncate(&mut self, index: u64) -> (r: Result<u64, Error>)
        requires
            old(self).wf(),
        ensures
            final(self).wf(),
            final(self).meta() == old(self).meta(),
            final(self).committed_ix() == old(self).committed_ix(),
            final(self).size_spec() == old(self).size_spec(),
            r is Ok <==> index >= old(self).committed_ix(),
            r matches Ok(n) ==> final(self).entries() == old(self).entries().take(
                vstd::math::min(index as int, old(self).entries().len() as int),
            ) && n == final(self).entries().len(),
            r matches Err(e) ==> e matches Error::Internal(_) && *final(self) == *old(self),
    ;

    /// Gets a metadata value.
    fn get_metadata(&self, key: &[u8]) -> (r: Result<Option<Vec<u8>>, Error>)
        requires
            self.wf(),
        ensures
            match r {
                Ok(Some(v)) => self.meta().contains_key(key@) && v@ == self.meta()[key@],
                Ok(None) => !self.meta().contains_key(key@),
                Err(_) => false,
            },
    ;

    /// Sets a metadata value.
    fn set_metadata(&mut self, key: &[u8], value: Vec<u8>) -> (r: Result<(), Error>)
        requires
            old(self).wf(),
        ensures
            final(self).wf(),
            final(self).entries() == old(self).entries(),
            final(self).committed_ix() == old(self).committed_ix(),
            final(self).size_spec() == old(self).size_spec(),
            r is Ok ==> final(self).meta() == old(self).meta().insert(key@, value@),
            r matches Err(e) ==> e matches Error::Internal(_) && *final(self) == *old(self),
    ;

    /// Returns true if the log has no entries.
    fn is_empty(&self) -> (r: bool)
        requires
            self.wf(),
        ensures
            r == (self.entries().len() == 0),
    {
        self.len() == 0
    }
}

} // verus!
