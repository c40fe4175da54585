//! The volatile in-memory log store: the reference backend.
//!
//! Entries live in an ordered vector, the committed boundary is a plain
//! counter, and nothing is persisted. It serves as the correctness
//! baseline for the durable backend and for tests.

use crate::error::Error;
use crate::log::{
    bytes_view, lemma_sum_lens_nonneg, lemma_sum_lens_prefix, lemma_sum_lens_push, scan_window,
    sum_lens, Bound, Range, Store,
};
use crate::metadata::Metadata;
use vstd::prelude::*;

verus! {

/// An in-memory log store.
#[derive(Debug)]
pub struct Memory {
    log: Vec<Vec<u8>>,
    committed: u64,
    metadata: Metadata,
}

impl Memory {
    /// Creates a new, empty in-memory log.
    pub fn new() -> (r: Memory)
        ensures
            r.wf(),
            r.entries() == Seq::<Seq<u8>>::empty(),
            r.committed_ix() == 0,
            r.meta() == Map::<Seq<u8>, Seq<u8>>::empty(),
            r.size_spec() == 0,
    {
        let r = Memory { log: Vec::new(), committed: 0, metadata: Metadata::new() };
        proof {
            assert(bytes_view(r.log@) =~= Seq::<Seq<u8>>::empty());
            assert(bytes_view(r.log@).take(0) =~= Seq::<Seq<u8>>::empty());
        }
        r
    }

    /// What the in-memory backend reports as its size: the total payload
    /// length of the committed entries alone, with no record prefixes and
    /// nothing counted for the uncommitted suffix.
    pub proof fn lemma_size_spec(&self)
        requires
            self.wf(),
        ensures
            self.size_spec() == sum_lens(self.entries().take(self.committed_ix())),
    {
    }
}

impl Store for Memory {
    closed spec fn entries(&self) -> Seq<Seq<u8>> {
        bytes_view(self.log@)
    }

    closed spec fn committed_ix(&self) -> int {
        self.committed as int
    }

    closed spec fn meta(&self) -> Map<Seq<u8>, Seq<u8>> {
        self.metadata@
    }

    closed spec fn size_spec(&self) -> int {
        sum_lens(bytes_view(self.log@).take(self.committed as int))
    }

    closed spec fn wf(&self) -> bool {
        self.committed as int <= self.log@.len() && self.metadata.wf()
    }

    proof fn lemma_wf(&self) {
        assert(vstd::std_specs::vec::spec_vec_len(&self.log) == self.log@.len());
        lemma_sum_lens_nonneg(bytes_view(self.log@).take(self.committed as int));
    }

    fn append(&mut self, entry: Vec<u8>) -> (r: Result<u64, Error>) {
        let ghost es0 = bytes_view(self.log@);
        let ghost e = entry@;
        self.log.push(entry);
        proof {
            assert(bytes_view(self.log@) =~= es0.push(e));
            assert(bytes_view(self.log@).take(self.committed as int) =~= es0.take(
                self.committed as int,
            ));
        }
        Ok(self.log.len() as u64)
    }

    fn commit(&mut self, index: u64) -> (r: Result<(), Error>) {
        if index > self.log.len() as u64 {
            return Err(Error::Internal("cannot commit a nonexistent index".to_owned()));
        }
        if index < self.committed {
            return Err(Error::Internal("cannot commit below the committed index".to_owned()));
        }
        if index == self.committed {
            return Ok(());
        }
        let ghost es = bytes_view(self.log@);
        self.committed = index;
        proof {
            assert(bytes_view(self.log@).take(index as int) =~= es.take(index as int));
        }
        Ok(())
    }

    fn committed(&self) -> (r: u64) {
        self.committed
    }

    fn get(&self, index: u64) -> (r: Result<Option<Vec<u8>>, Error>) {
        if index == 0 {
            return Ok(None);
        }
        if index > self.log.len() as u64 {
            return Ok(None);
        }
        let v = self.log[(index - 1) as usize].clone();
        proof {
            assert(v@ == bytes_view(self.log@)[index - 1]);
        }
        Ok(Some(v))
    }

    fn len(&self) -> (r: u64) {
        self.log.len() as u64
    }

    fn scan(&self, range: Range) -> (r: Vec<Vec<u8>>) {
        let ghost es = bytes_view(self.log@);
        let len: u64 = self.log.len() as u64;
        let lo: u64 = match range.start {
            Bound::Included(n) => if n == 0 {
                1
            } else {
                n
            },
            Bound::Excluded(n) => {
                if n >= len {
                    let out: Vec<Vec<u8>> = Vec::new();
                    proof {
                        assert(bytes_view(out@) =~= scan_window(es, range));
                    }
                    return out;
                }
                n + 1
            },
            Bound::Unbounded => 1,
        };
        let hi: u64 = match range.end {
            Bound::Included(n) => if n < len {
                n
            } else {
                len
            },
            Bound::Excluded(n) => if n == 0 {
                0
            } else if n - 1 < len {
                n - 1
            } else {
                len
            },
            Bound::Unbounded => len,
        };
        let mut out: Vec<Vec<u8>> = Vec::new();
        if lo > hi {
            proof {
                assert(bytes_view(out@) =~= scan_window(es, range));
            }
            return out;
        }
        proof {
            assert(vstd::std_specs::vec::spec_vec_len(&self.log) == self.log@.len());
        }
        let count: usize = (hi - lo + 1) as usize;
        for j in 0..count
            invariant
                es == bytes_view(self.log@),
                1 <= lo <= hi <= es.len(),
                es.len() == self.log@.len() <= usize::MAX,
                count == hi - lo + 1,
                out@.len() == j,
                forall|k: int| 0 <= k < j ==> (#[trigger] out@[k])@ == es[lo - 1 + k],
        {
            let idx: usize = (lo - 1) as usize + j;
            let v = self.log[idx].clone();
            proof {
                assert(v@ =~= self.log@[idx as int]@);
            }
            out.push(v);
        }
        proof {
            assert(bytes_view(out@) =~= scan_window(es, range));
        }
        out
    }

    fn size(&self) -> (r: u64) {
        let ghost es = bytes_view(self.log@);
        let mut total: u64 = 0;
        proof {
            assert(vstd::std_specs::vec::spec_vec_len(&self.log) == self.log@.len());
        }
        let n: usize = self.committed as usize;
        for i in 0..n
            invariant
                es == bytes_view(self.log@),
                n == self.committed as int <= es.len(),
                self.size_spec() == sum_lens(es.take(n as int)) <= u64::MAX,
                total == sum_lens(es.take(i as int)),
        {
            proof {
                assert(es.take(i + 1).drop_last() =~= es.take(i as int));
                assert(es.take(i + 1) =~= es.take(i as int).push(es[i as int]));
                lemma_sum_lens_push(es.take(i as int), es[i as int]);
                lemma_sum_lens_prefix(es, i + 1, n as int);
            }
            total = total + self.log[i].len() as u64;
        }
        total
    }

    fn truncate(&mut self, index: u64) -> (r: Result<u64, Error>) {
        if index < self.committed {
            return Err(Error::Internal("cannot truncate below the committed index".to_owned()));
        }
        let ghost es0 = bytes_view(self.log@);
        if index < self.log.len() as u64 {
            self.log.truncate(index as usize);
            proof {
                assert(bytes_view(self.log@) =~= es0.take(index as int));
                assert(bytes_view(self.log@).take(self.committed as int) =~= es0.take(
                    self.committed as int,
                ));
            }
        } else {
            proof {
                assert(es0.take(es0.len() as int) =~= es0);
            }
        }
        Ok(self.log.len() as u64)
    }

    fn get_metadata(&self, key: &[u8]) -> (r: Result<Option<Vec<u8>>, Error>) {
        match self.metadata.get(key) {
            Some(v) => Ok(Some(v.clone())),
            None => Ok(None),
        }
    }

    fn set_metadata(&mut self, key: &[u8], value: Vec<u8>) -> (r: Result<(), Error>)
        ensures
            r is Ok,
    {
        self.metadata.set(key, value);
        Ok(())
    }
}

} // verus!
