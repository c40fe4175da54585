//! The durable log store.
//!
//! Committed entries live in an append-only byte log of length-prefixed
//! records; uncommitted entries live in a volatile in-memory queue; the
//! metadata map is serialized whole into a second blob on every change. An
//! in-memory offset index (entry index to payload position and length) is
//! rebuilt by scanning the log bytes when the store is opened, and always
//! agrees with the record boundaries.
//!
//! The store itself works on the two byte logs; the caller that owns the
//! actual files reads them in full at open time, appends whatever
//! `log_file` has grown by after a commit, rewrites the metadata file from
//! `meta_file` after a metadata change, and decides when to force
//! durability barriers (the `sync` flag records that policy).

use crate::codec::{
    append_be32, be32, be32_value, encode_log, entries_fit, entry_offset, frame,
    lemma_be32_from_to, lemma_encode_append_record, lemma_encode_len, lemma_encode_push,
    lemma_entry_bytes, lemma_fit_concat, lemma_fit_take, lemma_log_size_nonneg,
    lemma_parse_concat, lemma_parse_encode, lemma_parse_inverse, lemma_size_last, log_size,
    parse_log, read_be32,
};
use crate::error::Error;
use crate::log::{bytes_view, lemma_bytes_view_subrange, scan_window, sum_lens, Bound, Range, Store};
use crate::metadata::{recovered_meta, Metadata};
use vstd::prelude::*;

verus! {

/// The offset index agrees with the records: entry `i` has its payload at
/// `entry_offset(es, i)` with its exact length.
pub open spec fn index_matches(ix: Seq<(u64, u32)>, es: Seq<Seq<u8>>) -> bool {
    &&& ix.len() == es.len()
    &&& forall|i: int|
        0 <= i < ix.len() ==> #[trigger] ix[i] == (
            entry_offset(es, i) as u64,
            es[i].len() as u32,
        )
}

proof fn lemma_index_matches_push(ix: Seq<(u64, u32)>, es: Seq<Seq<u8>>, e: Seq<u8>, pos: u64)
    requires
        index_matches(ix, es),
        e.len() <= u32::MAX,
        pos == entry_offset(es.push(e), es.len() as int),
    ensures
        index_matches(ix.push((pos, e.len() as u32)), es.push(e)),
{
    let es2 = es.push(e);
    let ix2 = ix.push((pos, e.len() as u32));
    assert forall|i: int| 0 <= i < ix2.len() implies #[trigger] ix2[i] == (
        entry_offset(es2, i) as u64,
        es2[i].len() as u32,
    ) by {
        if i < es.len() {
            assert(es2.take(i) =~= es.take(i));
            assert(ix2[i] == ix[i]);
            assert(es2[i] == es[i]);
        } else {
            assert(ix2[i] == (pos, e.len() as u32));
            assert(es2[i] == e);
        }
    }
}

proof fn lemma_commit_step(
    ces0: Seq<Seq<u8>>,
    unc0: Seq<Seq<u8>>,
    j: int,
    ix_pre: Seq<(u64, u32)>,
    file_post: Seq<u8>,
    pos: u64,
)
    requires
        entries_fit(ces0),
        entries_fit(unc0),
        0 <= j < unc0.len(),
        file_post == encode_log(ces0 + unc0.take(j)) + be32(unc0[j].len() as u32) + unc0[j],
        index_matches(ix_pre, ces0 + unc0.take(j)),
        pos == encode_log(ces0 + unc0.take(j)).len() + 4,
    ensures
        file_post == encode_log(ces0 + unc0.take(j + 1)),
        index_matches(ix_pre.push((pos, unc0[j].len() as u32)), ces0 + unc0.take(j + 1)),
{
    let ces_j = ces0 + unc0.take(j);
    let e = unc0[j];
    lemma_fit_take(unc0, j);
    lemma_fit_concat(ces0, unc0.take(j));
    lemma_encode_len(ces_j);
    lemma_log_size_nonneg(ces_j);
    lemma_encode_append_record(ces_j, e, file_post);
    assert(ces_j.push(e).take(ces_j.len() as int) =~= ces_j);
    assert(pos == entry_offset(ces_j.push(e), ces_j.len() as int));
    lemma_index_matches_push(ix_pre, ces_j, e, pos);
    assert(ces_j.push(e) =~= ces0 + unc0.take(j + 1));
}

#[verifier::spinoff_prover]
#[verifier::rlimit(100)]
proof fn lemma_commit_finish(ces0: Seq<Seq<u8>>, unc0: Seq<Seq<u8>>, k: int)
    requires
        entries_fit(ces0),
        entries_fit(unc0),
        0 <= k <= unc0.len(),
    ensures
        parse_log(encode_log(ces0 + unc0.take(k))) == Some(ces0 + unc0.take(k)),
        (ces0 + unc0.take(k)) + unc0.skip(k) == ces0 + unc0,
        entries_fit(ces0 + unc0.take(k)),
        entries_fit(unc0.skip(k)),
{
    lemma_fit_take(unc0, k);
    lemma_fit_concat(ces0, unc0.take(k));
    lemma_parse_encode(ces0 + unc0.take(k));
    assert((ces0 + unc0.take(k)) + unc0.skip(k) =~= ces0 + unc0);
    assert(entries_fit(unc0.skip(k))) by {
        assert(forall|i: int|
            0 <= i < unc0.skip(k).len() ==> #[trigger] unc0.skip(k)[i].len() == unc0[i + k].len());
    }
}

/// Appends the first `k` queued entries to the record log and the offset
/// index: for each, the 4-byte big-endian length prefix, then the payload,
/// and the payload's position and length in the index. The log only grows.
fn append_records(
    file: &mut Vec<u8>,
    ix: &mut Vec<(u64, u32)>,
    unc: &Vec<Vec<u8>>,
    k: usize,
    Ghost(ces0): Ghost<Seq<Seq<u8>>>,
)
    requires
        k <= unc@.len(),
        entries_fit(ces0),
        entries_fit(bytes_view(unc@)),
        old(file)@ == encode_log(ces0),
        index_matches(old(ix)@, ces0),
    ensures
        final(file)@ == encode_log(ces0 + bytes_view(unc@).take(k as int)),
        index_matches(final(ix)@, ces0 + bytes_view(unc@).take(k as int)),
        final(ix)@.len() == old(ix)@.len() + k,
        old(file)@.is_prefix_of(final(file)@),
{
    let ghost unc0 = bytes_view(unc@);
    proof {
        assert(ces0 + unc0.take(0) =~= ces0);
        assert(old(file)@.subrange(0, old(file)@.len() as int) =~= old(file)@);
    }
    for j in 0..k
        invariant
            k <= unc@.len(),
            unc0 == bytes_view(unc@),
            entries_fit(unc0),
            entries_fit(ces0),
            file@ == encode_log(ces0 + unc0.take(j as int)),
            index_matches(ix@, ces0 + unc0.take(j as int)),
            ix@.len() == old(ix)@.len() + j,
            old(file)@.is_prefix_of(file@),
    {
        let ghost e = unc@[j as int]@;
        let ghost file_pre = file@;
        let ghost ix_pre = ix@;
        let entry_len: usize = unc[j].len();
        proof {
            assert(unc0[j as int] == e);
            assert(entry_len <= u32::MAX);
        }
        append_be32(file, entry_len as u32);
        let pos64 = file.len() as u64;
        file.extend_from_slice(unc[j].as_slice());
        ix.push((pos64, entry_len as u32));
        proof {
            assert(file@ == file_pre + be32(entry_len as u32) + e);
            lemma_commit_step(ces0, unc0, j as int, ix_pre, file@, pos64);
            assert(old(file)@.is_prefix_of(file@)) by {
                let l = old(file)@.len() as int;
                assert(file@.subrange(0, l) =~= file_pre.subrange(0, l));
            }
        }
    }
}

/// The durable log store: committed entries as length-prefixed records in
/// an append-only byte log, uncommitted entries in memory, metadata in a
/// separate serialized blob.
#[derive(Debug)]
pub struct Hybrid {
    /// Mirror of the append-only log file: the committed records.
    file: Vec<u8>,
    /// Payload position and length of every committed entry.
    index: Vec<(u64, u32)>,
    /// The uncommitted entries, in index order.
    uncommitted: Vec<Vec<u8>>,
    /// The metadata map.
    metadata: Metadata,
    /// Mirror of the metadata file: one whole-map serialization.
    meta_file: Vec<u8>,
    /// Whether each commit and metadata write should force a durability
    /// barrier; recorded for the caller that owns the files.
    sync: bool,
}

impl Hybrid {
    /// The committed entries, exactly as the log bytes parse.
    pub closed spec fn committed_entries(&self) -> Seq<Seq<u8>> {
        parse_log(self.file@)->Some_0
    }

    /// The bytes of the append-only log file.
    pub closed spec fn log_view(&self) -> Seq<u8> {
        self.file@
    }

    /// The bytes of the metadata file.
    pub closed spec fn meta_view(&self) -> Seq<u8> {
        self.meta_file@
    }

    /// The configured durability policy.
    pub closed spec fn sync_spec(&self) -> bool {
        self.sync
    }

    /// Scanning the log bytes must recover the committed entries, the
    /// index must agree with the record boundaries, every entry must fit
    /// its length prefix, the total length must fit the index type, and
    /// the metadata blob must recover the metadata map.
    pub closed spec fn inv(&self) -> bool {
        &&& parse_log(self.file@) is Some
        &&& index_matches(self.index@, self.committed_entries())
        &&& entries_fit(self.committed_entries())
        &&& entries_fit(bytes_view(self.uncommitted@))
        &&& self.committed_entries().len() + self.uncommitted@.len() <= u64::MAX
        &&& self.metadata.wf()
        &&& recovered_meta(self.meta_file@) == Some(self.metadata@)
    }

    /// Builds the offset index by scanning the log bytes from the start:
    /// repeatedly a 4-byte big-endian length, then that many payload
    /// bytes. Fails exactly when the bytes do not end at a record
    /// boundary.
    fn build_index(file: &Vec<u8>) -> (r: Result<Vec<(u64, u32)>, Error>)
        ensures
            match r {
                Ok(ix) => parse_log(file@) is Some && index_matches(ix@, parse_log(file@)->Some_0),
                Err(e) => parse_log(file@) is None && e matches Error::Internal(_),
            },
    {
        let file_len: usize = file.len();
        let mut ix: Vec<(u64, u32)> = Vec::new();
        let mut pos: usize = 0;
        let ghost mut acc: Seq<Seq<u8>> = Seq::<Seq<u8>>::empty();
        proof {
            assert(encode_log(acc) =~= file@.take(0));
        }
        while pos < file_len
            invariant
                file_len == file@.len(),
                pos <= file_len,
                entries_fit(acc),
                encode_log(acc) == file@.take(pos as int),
                index_matches(ix@, acc),
            decreases file_len - pos,
        {
            if file_len - pos < 4 {
                proof {
                    lemma_parse_concat(acc, file@.skip(pos as int));
                    assert(file@.take(pos as int) + file@.skip(pos as int) =~= file@);
                    assert(file@.skip(pos as int).len() > 0);
                    assert(parse_log(file@.skip(pos as int)) is None);
                }
                return Err(
                    Error::Internal("log file ends inside a record length prefix".to_owned()),
                );
            }
            let size = read_be32(file.as_slice(), pos);
            proof {
                assert(file@.skip(pos as int).take(4) =~= file@.subrange(
                    pos as int,
                    pos as int + 4,
                ));
            }
            if file_len - pos - 4 < size as usize {
                proof {
                    lemma_parse_concat(acc, file@.skip(pos as int));
                    assert(file@.take(pos as int) + file@.skip(pos as int) =~= file@);
                    let suffix = file@.skip(pos as int);
                    assert(suffix.len() >= 4);
                    assert(be32_value(suffix.take(4)) == size);
                    assert(suffix.len() < 4 + size);
                    assert(parse_log(suffix) is None);
                }
                return Err(Error::Internal("log file ends inside a record payload".to_owned()));
            }
            let ghost entry = file@.subrange(pos + 4, pos + 4 + size as int);
            ix.push(((pos + 4) as u64, size));
            proof {
                let old_acc = acc;
                acc = acc.push(entry);
                lemma_encode_push(old_acc, entry);
                lemma_encode_len(old_acc);
                lemma_be32_from_to(file@.subrange(pos as int, pos as int + 4));
                assert(be32(size) == file@.subrange(pos as int, pos as int + 4));
                assert(frame(entry) =~= file@.subrange(
                    pos as int,
                    pos + 4 + size as int,
                ));
                assert(encode_log(acc) =~= file@.take(pos + 4 + size as int));
                assert(entry_offset(old_acc, old_acc.len() as int) == pos + 4) by {
                    assert(old_acc.take(old_acc.len() as int) =~= old_acc);
                }
                assert(index_matches(ix@, acc)) by {
                    assert(forall|i: int|
                        0 <= i < old_acc.len() ==> #[trigger] acc.take(i) =~= old_acc.take(i));
                    assert(forall|i: int| 0 <= i < old_acc.len() ==> #[trigger] acc[i] == old_acc[i]);
                    assert(acc.take(old_acc.len() as int) =~= old_acc);
                }
            }
            pos = pos + 4 + size as usize;
        }
        proof {
            lemma_parse_concat(acc, file@.skip(pos as int));
            assert(file@.take(pos as int) + file@.skip(pos as int) =~= file@);
            assert(file@.skip(pos as int).len() == 0);
            assert(parse_log(file@.skip(pos as int)) == Some(Seq::<Seq<u8>>::empty()));
            assert(acc + Seq::<Seq<u8>>::empty() =~= acc);
        }
        Ok(ix)
    }

    /// Loads the metadata map from the metadata blob: an empty blob is an
    /// empty map, any other blob must deserialize or the store is unusable.
    fn load_metadata(bytes: &Vec<u8>) -> (r: Result<Metadata, Error>)
        ensures
            match r {
                Ok(md) => md.wf() && recovered_meta(bytes@) == Some(md@),
                Err(e) => recovered_meta(bytes@) is None && e matches Error::Internal(_),
            },
    {
        Metadata::load(bytes)
    }

    /// Creates or reopens a durable log from the current bytes of its two
    /// files: the append-only record log and the metadata blob. Empty
    /// byte strings stand for files just created. `sync` records whether
    /// the caller should force a durability barrier on every write.
    pub fn open(log_bytes: Vec<u8>, meta_bytes: Vec<u8>, sync: bool) -> (r: Result<Hybrid, Error>)
        ensures
            match r {
                Ok(h) => {
                    &&& parse_log(log_bytes@) is Some
                    &&& recovered_meta(meta_bytes@) is Some
                    &&& h.wf()
                    &&& h.entries() == parse_log(log_bytes@)->Some_0
                    &&& h.committed_ix() == parse_log(log_bytes@)->Some_0.len()
                    &&& h.meta() == recovered_meta(meta_bytes@)->Some_0
                    &&& h.size_spec() == log_bytes@.len()
                    &&& h.log_view() == log_bytes@
                    &&& h.meta_view() == meta_bytes@
                    &&& h.sync_spec() == sync
                },
                Err(e) => {
                    &&& parse_log(log_bytes@) is None || recovered_meta(meta_bytes@) is None
                    &&& e matches Error::Internal(_)
                },
            },
    {
        let index = match Self::build_index(&log_bytes) {
            Ok(ix) => ix,
            Err(e) => {
                return Err(e);
            },
        };
        let metadata = match Self::load_metadata(&meta_bytes) {
            Ok(md) => md,
            Err(e) => {
                return Err(e);
            },
        };
        let h = Hybrid {
            file: log_bytes,
            index,
            uncommitted: Vec::new(),
            metadata,
            meta_file: meta_bytes,
            sync,
        };
        proof {
            let ces = parse_log(h.file@)->Some_0;
            lemma_parse_inverse(h.file@);
            lemma_encode_len(ces);
            assert(bytes_view(h.uncommitted@) =~= Seq::<Seq<u8>>::empty());
            assert(entries_fit(bytes_view(h.uncommitted@)));
            assert(ces.len() == h.index@.len());
            assert(vstd::std_specs::vec::spec_vec_len(&h.index) == h.index@.len());
            assert(h.entries() =~= ces);
        }
        Ok(h)
    }

    /// Moves the first `k` uncommitted entries into the record log,
    /// advancing the committed boundary; the log bytes only grow.
    #[verifier::spinoff_prover]
    #[verifier::rlimit(100)]
    fn commit_apply(&mut self, k: usize)
        requires
            old(self).wf(),
            0 < k <= old(self).uncommitted@.len(),
        ensures
            final(self).wf(),
            final(self).entries() == old(self).entries(),
            final(self).meta() == old(self).meta(),
            final(self).committed_ix() == old(self).committed_ix() + k,
            old(self).log_view().is_prefix_of(final(self).log_view()),
            final(self).meta_view() == old(self).meta_view(),
            final(self).sync_spec() == old(self).sync_spec(),
    {
        let ghost ces0 = self.committed_entries();
        let ghost unc0 = bytes_view(self.uncommitted@);
        proof {
            lemma_parse_inverse(self.file@);
        }
        append_records(&mut self.file, &mut self.index, &self.uncommitted, k, Ghost(ces0));
        let tail = self.uncommitted.split_off(k);
        self.uncommitted = tail;
        proof {
            let cesk = ces0 + unc0.take(k as int);
            lemma_commit_finish(ces0, unc0, k as int);
            assert(self.committed_entries() == cesk);
            lemma_bytes_view_subrange(
                old(self).uncommitted@,
                k as int,
                old(self).uncommitted@.len() as int,
            );
            assert(bytes_view(self.uncommitted@) == unc0.skip(k as int));
            assert(self.entries() == old(self).entries());
        }
    }

    /// The bytes of the append-only log file. The caller keeps the real
    /// file identical to these bytes; they only ever grow (see `commit`).
    pub fn log_file(&self) -> (r: &Vec<u8>)
        ensures
            r@ == self.log_view(),
    {
        &self.file
    }

    /// The bytes of the metadata file: one serialization of the whole map,
    /// rewritten from scratch by every metadata change.
    pub fn meta_file(&self) -> (r: &Vec<u8>)
        ensures
            r@ == self.meta_view(),
    {
        &self.meta_file
    }

    /// Whether each commit and metadata write asks for a durability
    /// barrier.
    pub fn sync_mode(&self) -> (r: bool)
        ensures
            r == self.sync_spec(),
    {
        self.sync
    }

    /// What the durable backend reports as its size: the byte length of
    /// the record log, which is four prefix bytes plus the payload for
    /// each committed entry — `4·k + B` for `k` committed entries of `B`
    /// total payload bytes — however many uncommitted entries exist.
    #[verifier::spinoff_prover]
    #[verifier::rlimit(100)]
    pub proof fn lemma_size_spec(&self)
        requires
            self.wf(),
        ensures
            self.size_spec() == self.log_view().len(),
            self.size_spec() == 4 * self.committed_ix() + sum_lens(
                self.entries().take(self.committed_ix()),
            ),
            self.size_spec() <= u64::MAX,
    {
        let ces = parse_log(self.file@)->Some_0;
        lemma_parse_inverse(self.file@);
        lemma_encode_len(ces);
        Self::lemma_size_formula(ces);
        assert(self.entries().take(self.committed_ix()) =~= ces);
        assert(vstd::std_specs::vec::spec_vec_len(&self.file) == self.file@.len());
    }

    /// The durable byte footprint is four prefix bytes per committed
    /// entry plus the committed payload bytes, however many uncommitted
    /// entries exist.
    pub proof fn lemma_size_formula(es: Seq<Seq<u8>>)
        ensures
            log_size(es) == 4 * es.len() + sum_lens(es),
        decreases es.len(),
    {
        if es.len() > 0 {
            Self::lemma_size_formula(es.drop_first());
        }
    }

    /// The durable bytes of a well-formed store recover exactly its
    /// committed entries and its metadata map. With the contract of
    /// `open`, reopening a store from its two byte logs therefore cannot
    /// fail, and restores the committed boundary, every committed entry,
    /// and the metadata, while uncommitted entries are gone.
    pub proof fn lemma_reopen(h: Hybrid)
        requires
            h.wf(),
        ensures
            parse_log(h.log_view()) == Some(h.entries().take(h.committed_ix())),
            recovered_meta(h.meta_view()) == Some(h.meta()),
    {
        let ces = parse_log(h.file@)->Some_0;
        assert(h.entries().take(h.committed_ix()) =~= ces);
    }
}

impl Store for Hybrid {
    closed spec fn entries(&self) -> Seq<Seq<u8>> {
        self.committed_entries() + bytes_view(self.uncommitted@)
    }

    closed spec fn committed_ix(&self) -> int {
        self.index@.len() as int
    }

    closed spec fn meta(&self) -> Map<Seq<u8>, Seq<u8>> {
        self.metadata@
    }

    closed spec fn size_spec(&self) -> int {
        log_size(self.committed_entries())
    }

    closed spec fn wf(&self) -> bool {
        self.inv()
    }

    proof fn lemma_wf(&self) {
        lemma_log_size_nonneg(self.committed_entries());
    }

    fn append(&mut self, entry: Vec<u8>) -> (r: Result<u64, Error>)
        ensures
            final(self).log_view() == old(self).log_view(),
            final(self).meta_view() == old(self).meta_view(),
            final(self).sync_spec() == old(self).sync_spec(),
    {
        let ghost unc0 = bytes_view(self.uncommitted@);
        let ghost e = entry@;
        self.uncommitted.push(entry);
        proof {
            assert(bytes_view(self.uncommitted@) =~= unc0.push(e));
            assert(self.entries() =~= old(self).entries().push(e));
        }
        let n = self.index.len() as u64 + self.uncommitted.len() as u64;
        Ok(n)
    }

    fn commit(&mut self, index: u64) -> (r: Result<(), Error>)
        ensures
            old(self).log_view().is_prefix_of(final(self).log_view()),
            final(self).meta_view() == old(self).meta_view(),
            final(self).sync_spec() == old(self).sync_spec(),
    {
        proof {
            assert(self.file@.subrange(0, self.file@.len() as int) =~= self.file@);
        }
        let c64 = self.index.len() as u64;
        let total = c64 + self.uncommitted.len() as u64;
        if index > total {
            return Err(Error::Internal("cannot commit a nonexistent index".to_owned()));
        }
        if index < c64 {
            return Err(Error::Internal("cannot commit below the committed index".to_owned()));
        }
        if index == c64 {
            return Ok(());
        }
        proof {
            assert(vstd::std_specs::vec::spec_vec_len(&self.uncommitted)
                == self.uncommitted@.len());
        }
        let k: usize = (index - c64) as usize;
        self.commit_apply(k);
        Ok(())
    }

    fn committed(&self) -> (r: u64) {
        self.index.len() as u64
    }

    fn get(&self, index: u64) -> (r: Result<Option<Vec<u8>>, Error>) {
        if index == 0 {
            return Ok(None);
        }
        let c = self.index.len() as u64;
        if index <= c {
            let i: usize = (index - 1) as usize;
            let (pos, size) = self.index[i];
            let ghost ces = self.committed_entries();
            proof {
                lemma_parse_inverse(self.file@);
                lemma_encode_len(ces);
                lemma_entry_bytes(ces, i as int);
                assert(vstd::std_specs::vec::spec_vec_len(&self.file) == self.file@.len());
                assert(pos == entry_offset(ces, i as int));
                assert(size == ces[i as int].len());
            }
            let start: usize = pos as usize;
            let end: usize = start + size as usize;
            let v = vstd::slice::slice_to_vec(
                vstd::slice::slice_subrange(self.file.as_slice(), start, end),
            );
            proof {
                assert(v@ == self.entries()[index - 1]);
            }
            return Ok(Some(v));
        }
        let u: u64 = self.uncommitted.len() as u64;
        if index - c <= u {
            let j: usize = (index - c - 1) as usize;
            let v = self.uncommitted[j].clone();
            proof {
                assert(v@ =~= bytes_view(self.uncommitted@)[j as int]);
                assert(v@ == self.entries()[index - 1]);
            }
            return Ok(Some(v));
        }
        Ok(None)
    }

    fn len(&self) -> (r: u64) {
        self.index.len() as u64 + self.uncommitted.len() as u64
    }

    fn scan(&self, range: Range) -> (r: Vec<Vec<u8>>) {
        let ghost es = self.entries();
        let len: u64 = self.index.len() as u64 + self.uncommitted.len() as u64;
        let lo: u64 = match range.start {
            Bound::Included(n) => if n == 0 {
                1
            } else {
                n
            },
            Bound::Excluded(n) => {
                if n >= len {
                    let out: Vec<Vec<u8>> = Vec::new();
                    proof {
                        assert(bytes_view(out@) =~= scan_window(es, range));
                    }
                    return out;
                }
                n + 1
            },
            Bound::Unbounded => 1,
        };
        let hi: u64 = match range.end {
            Bound::Included(n) => if n < len {
                n
            } else {
                len
            },
            Bound::Excluded(n) => if n == 0 {
                0
            } else if n - 1 < len {
                n - 1
            } else {
                len
            },
            Bound::Unbounded => len,
        };
        let mut out: Vec<Vec<u8>> = Vec::new();
        if lo > hi {
            proof {
                assert(bytes_view(out@) =~= scan_window(es, range));
            }
            return out;
        }
        let count: u64 = hi - lo + 1;
        let mut j: u64 = 0;
        while j < count
            invariant
                self.wf(),
                es == self.entries(),
                1 <= lo <= hi <= es.len() <= u64::MAX,
                count == hi - lo + 1,
                j <= count,
                out@.len() == j,
                forall|k: int| 0 <= k < j ==> (#[trigger] out@[k])@ == es[lo - 1 + k],
            decreases count - j,
        {
            let v = match self.get(lo + j) {
                Ok(Some(v)) => v,
                _ => {
                    proof {
                        assert(false);
                    }
                    vstd::pervasive::unreached()
                },
            };
            out.push(v);
            j = j + 1;
        }
        proof {
            assert(bytes_view(out@) =~= scan_window(es, range));
        }
        out
    }

    fn size(&self) -> (r: u64) {
        let n = self.index.len();
        let ghost ces = self.committed_entries();
        if n == 0 {
            proof {
                assert(ces =~= Seq::<Seq<u8>>::empty());
            }
            return 0;
        }
        let (pos, size) = self.index[n - 1];
        proof {
            lemma_parse_inverse(self.file@);
            lemma_encode_len(ces);
            lemma_size_last(ces);
            lemma_log_size_nonneg(ces.take(n - 1));
            assert(vstd::std_specs::vec::spec_vec_len(&self.file) == self.file@.len());
            assert(pos == entry_offset(ces, n - 1));
            assert(size == ces[n - 1].len());
            assert(log_size(ces) == pos + size);
        }
        pos + size as u64
    }

    fn truncate(&mut self, index: u64) -> (r: Result<u64, Error>)
        ensures
            final(self).log_view() == old(self).log_view(),
            final(self).meta_view() == old(self).meta_view(),
            final(self).sync_spec() == old(self).sync_spec(),
    {
        let c = self.index.len() as u64;
        if index < c {
            return Err(Error::Internal("cannot truncate below the committed index".to_owned()));
        }
        let ghost unc0 = bytes_view(self.uncommitted@);
        let ghost ces = self.committed_entries();
        let u: u64 = self.uncommitted.len() as u64;
        let keep: u64 = if index - c < u {
            index - c
        } else {
            u
        };
        proof {
            assert(vstd::std_specs::vec::spec_vec_len(&self.uncommitted)
                == self.uncommitted@.len());
        }
        self.uncommitted.truncate(keep as usize);
        proof {
            assert(bytes_view(self.uncommitted@) =~= unc0.take(keep as int));
            let m = vstd::math::min(index as int, old(self).entries().len() as int);
            assert(self.entries() =~= old(self).entries().take(m));
        }
        Ok(self.index.len() as u64 + self.uncommitted.len() as u64)
    }

    fn get_metadata(&self, key: &[u8]) -> (r: Result<Option<Vec<u8>>, Error>) {
        match self.metadata.get(key) {
            Some(v) => Ok(Some(v.clone())),
            None => Ok(None),
        }
    }

    fn set_metadata(&mut self, key: &[u8], value: Vec<u8>) -> (r: Result<(), Error>)
        ensures
            r is Ok,
            final(self).log_view() == old(self).log_view(),
            final(self).sync_spec() == old(self).sync_spec(),
    {
        let mut next = self.metadata.duplicate();
        next.set(key, value);
        let blob = match next.encode() {
            Ok(b) => b,
            Err(e) => {
                return Err(e);
            },
        };
        self.metadata = next;
        self.meta_file = blob;
        proof {
            self.metadata.lemma_view_is_pairs();
        }
        Ok(())
    }
}

} // verus!
