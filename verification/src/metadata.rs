//! The metadata map: small byte-key to byte-value pairs stored beside the
//! log, independent of entry indices.
//!
//! The store keeps the pairs in a vector with pairwise-distinct keys and is
//! specified against the `Map` it describes. The whole map is serialized
//! through `bincode` on every mutation and written back as one blob; an
//! empty blob reads back as the empty map.

use crate::error::Error;
use vstd::prelude::*;

verus! {

/// The deep view of a key-value pair list.
pub open spec fn pairs_view(s: Seq<(Vec<u8>, Vec<u8>)>) -> Seq<(Seq<u8>, Seq<u8>)> {
    s.map(|i: int, p: (Vec<u8>, Vec<u8>)| (p.0@, p.1@))
}

/// The map a pair list describes; a later pair with the same key wins.
pub open spec fn map_of_pairs(s: Seq<(Seq<u8>, Seq<u8>)>) -> Map<Seq<u8>, Seq<u8>>
    decreases s.len(),
{
    if s.len() == 0 {
        Map::<Seq<u8>, Seq<u8>>::empty()
    } else {
        map_of_pairs(s.drop_last()).insert(s.last().0, s.last().1)
    }
}

/// All keys in the pair list are distinct.
pub open spec fn unique_keys(s: Seq<(Seq<u8>, Seq<u8>)>) -> bool {
    forall|i: int, j: int| 0 <= i < j < s.len() ==> (#[trigger] s[i]).0 != (#[trigger] s[j]).0
}

/// What `bincode::serialize` returns for a key-value pair list.
pub uninterp spec fn meta_encoding(pairs: Seq<(Seq<u8>, Seq<u8>)>) -> Seq<u8>;

/// What `bincode::deserialize` reads back from a byte string: the pair list
/// the bytes describe, or nothing when they are malformed.
pub uninterp spec fn meta_decoding(bytes: Seq<u8>) -> Option<Seq<(Seq<u8>, Seq<u8>)>>;

/// What a metadata blob recovers to on startup: an empty blob is the empty
/// map (first run), any other blob must deserialize.
pub open spec fn recovered_meta(bytes: Seq<u8>) -> Option<Map<Seq<u8>, Seq<u8>>> {
    if bytes.len() == 0 {
        Some(Map::<Seq<u8>, Seq<u8>>::empty())
    } else {
        match meta_decoding(bytes) {
            Some(pv) => Some(map_of_pairs(pv)),
            None => None,
        }
    }
}

/// Relies on `bincode::serialize` (little-endian fixint default
/// configuration): the bytes returned are a function of the value alone,
/// begin with the list's non-empty eight-byte length, and
/// `bincode::deserialize` reads the same value back from them. Serializing
/// a known-length pair list into memory always succeeds: the writer is a
/// `Vec`, which cannot fail, and the default configuration sets no size
/// limit.
#[verifier::external_body]
fn bincode_encode_pairs(pairs: &Vec<(Vec<u8>, Vec<u8>)>) -> (r: Result<Vec<u8>, String>)
    ensures
        r is Ok,
        r matches Ok(bytes) ==> bytes@ == meta_encoding(pairs_view(pairs@)) && meta_decoding(
            bytes@,
        ) == Some(pairs_view(pairs@)) && bytes@.len() > 0,
{
    match bincode::serialize(pairs) {
        Ok(b) => Ok(b),
        Err(e) => Err(format!("{}", e)),
    }
}

/// Relies on `bincode::deserialize`: whether it succeeds, and the value it
/// returns, depend on the input bytes alone.
#[verifier::external_body]
fn bincode_decode_pairs(bytes: &Vec<u8>) -> (r: Result<Vec<(Vec<u8>, Vec<u8>)>, String>)
    ensures
        match r {
            Ok(pairs) => meta_decoding(bytes@) == Some(pairs_view(pairs@)),
            Err(_) => meta_decoding(bytes@) is None,
        },
{
    match bincode::deserialize(bytes.as_slice()) {
        Ok(p) => Ok(p),
        Err(e) => Err(format!("{}", e)),
    }
}

/// Byte-string equality.
pub fn bytes_eq(a: &[u8], b: &[u8]) -> (r: bool)
    ensures
        r == (a@ == b@),
{
    if a.len() != b.len() {
        return false;
    }
    let n = a.len();
    for i in 0..n
        invariant
            n == a@.len() == b@.len(),
            forall|j: int| 0 <= j < i ==> a@[j] == b@[j],
    {
        if *vstd::slice::slice_index_get(a, i) != *vstd::slice::slice_index_get(b, i) {
            return false;
        }
    }
    proof {
        assert(a@ =~= b@);
    }
    true
}

/// The in-memory metadata map: key-value byte pairs with distinct keys.
#[derive(Debug)]
pub struct Metadata {
    pairs: Vec<(Vec<u8>, Vec<u8>)>,
}

impl View for Metadata {
    type V = Map<Seq<u8>, Seq<u8>>;

    closed spec fn view(&self) -> Map<Seq<u8>, Seq<u8>> {
        map_of_pairs(pairs_view(self.pairs@))
    }
}

proof fn lemma_map_of_pairs_not_found(s: Seq<(Seq<u8>, Seq<u8>)>, k: Seq<u8>)
    requires
        forall|i: int| 0 <= i < s.len() ==> (#[trigger] s[i]).0 != k,
    ensures
        !map_of_pairs(s).contains_key(k),
    decreases s.len(),
{
    if s.len() > 0 {
        assert(forall|i: int|
            0 <= i < s.drop_last().len() ==> (#[trigger] s.drop_last()[i]).0 != k);
        lemma_map_of_pairs_not_found(s.drop_last(), k);
        assert(s.last().0 != k);
    }
}

proof fn lemma_map_of_pairs_found(s: Seq<(Seq<u8>, Seq<u8>)>, i: int)
    requires
        unique_keys(s),
        0 <= i < s.len(),
    ensures
        map_of_pairs(s).contains_key(s[i].0),
        map_of_pairs(s)[s[i].0] == s[i].1,
    decreases s.len(),
{
    if i == s.len() - 1 {
    } else {
        assert(unique_keys(s.drop_last())) by {
            assert(forall|x: int, y: int|
                0 <= x < y < s.drop_last().len() ==> (#[trigger] s.drop_last()[x]).0 != (
                #[trigger] s.drop_last()[y]).0);
        }
        assert(s.drop_last()[i] == s[i]);
        lemma_map_of_pairs_found(s.drop_last(), i);
        assert(s.last().0 != s[i].0);
    }
}

proof fn lemma_map_of_pairs_push(s: Seq<(Seq<u8>, Seq<u8>)>, k: Seq<u8>, v: Seq<u8>)
    ensures
        map_of_pairs(s.push((k, v))) == map_of_pairs(s).insert(k, v),
{
    assert(s.push((k, v)).drop_last() =~= s);
    assert(s.push((k, v)).last() == (k, v));
}

proof fn lemma_map_of_pairs_remove(s: Seq<(Seq<u8>, Seq<u8>)>, i: int)
    requires
        unique_keys(s),
        0 <= i < s.len(),
    ensures
        map_of_pairs(s.remove(i)) == map_of_pairs(s).remove(s[i].0),
    decreases s.len(),
{
    let k = s[i].0;
    if i == s.len() - 1 {
        assert(s.remove(i) =~= s.drop_last());
        assert(forall|j: int| 0 <= j < s.drop_last().len() ==> (#[trigger] s[j]).0 != k);
        assert(forall|j: int|
            0 <= j < s.drop_last().len() ==> (#[trigger] s.drop_last()[j]) == s[j]);
        lemma_map_of_pairs_not_found(s.drop_last(), k);
        assert(map_of_pairs(s.drop_last()).insert(k, s[i].1).remove(k) =~= map_of_pairs(
            s.drop_last(),
        ));
    } else {
        let t = s.drop_last();
        assert(unique_keys(t)) by {
            assert(forall|x: int, y: int|
                0 <= x < y < t.len() ==> (#[trigger] t[x]).0 != (#[trigger] t[y]).0);
        }
        assert(t[i] == s[i]);
        lemma_map_of_pairs_remove(t, i);
        assert(s.remove(i).drop_last() =~= t.remove(i));
        assert(s.remove(i).last() == s.last());
        assert(map_of_pairs(s.remove(i)) == map_of_pairs(t.remove(i)).insert(
            s.last().0,
            s.last().1,
        ));
        assert(s.last().0 != k);
        assert(map_of_pairs(t).remove(k).insert(s.last().0, s.last().1) =~= map_of_pairs(t).insert(
            s.last().0,
            s.last().1,
        ).remove(k));
    }
}

impl Metadata {
    /// Every key occurs at most once.
    pub closed spec fn wf(&self) -> bool {
        unique_keys(pairs_view(self.pairs@))
    }

    /// The pair list itself, for relating the store to its serialized form.
    pub closed spec fn pairs_seq(&self) -> Seq<(Seq<u8>, Seq<u8>)> {
        pairs_view(self.pairs@)
    }

    pub proof fn lemma_view_is_pairs(&self)
        ensures
            self@ == map_of_pairs(self.pairs_seq()),
    {
    }

    /// An empty metadata map.
    pub fn new() -> (r: Metadata)
        ensures
            r.wf(),
            r@ == Map::<Seq<u8>, Seq<u8>>::empty(),
    {
        let r = Metadata { pairs: Vec::new() };
        proof {
            assert(pairs_view(r.pairs@) =~= Seq::<(Seq<u8>, Seq<u8>)>::empty());
        }
        r
    }

    /// Looks a key up.
    pub fn get(&self, key: &[u8]) -> (r: Option<&Vec<u8>>)
        requires
            self.wf(),
        ensures
            match r {
                Some(v) => self@.contains_key(key@) && v@ == self@[key@],
                None => !self@.contains_key(key@),
            },
    {
        let ghost pv = pairs_view(self.pairs@);
        let n = self.pairs.len();
        for i in 0..n
            invariant
                n == self.pairs@.len(),
                pv == pairs_view(self.pairs@),
                unique_keys(pv),
                forall|j: int| 0 <= j < i ==> (#[trigger] pv[j]).0 != key@,
        {
            if bytes_eq(self.pairs[i].0.as_slice(), key) {
                proof {
                    assert(pv[i as int].0 == key@);
                    lemma_map_of_pairs_found(pv, i as int);
                }
                return Some(&self.pairs[i].1);
            }
            proof {
                assert(pv[i as int].0 != key@);
            }
        }
        proof {
            lemma_map_of_pairs_not_found(pv, key@);
        }
        None
    }

    /// Inserts or replaces the value stored under a key.
    pub fn set(&mut self, key: &[u8], value: Vec<u8>)
        requires
            old(self).wf(),
        ensures
            final(self).wf(),
            final(self)@ == old(self)@.insert(key@, value@),
    {
        let ghost pv0 = pairs_view(self.pairs@);
        let n = self.pairs.len();
        let mut hit: Option<usize> = None;
        for i in 0..n
            invariant
                n == self.pairs@.len(),
                pv0 == pairs_view(self.pairs@),
                unique_keys(pv0),
                match hit {
                    Some(h) => h < i && pv0[h as int].0 == key@,
                    None => forall|j: int| 0 <= j < i ==> (#[trigger] pv0[j]).0 != key@,
                },
        {
            if hit.is_none() && bytes_eq(self.pairs[i].0.as_slice(), key) {
                hit = Some(i);
            }
        }
        match hit {
            Some(h) => {
                proof {
                    lemma_map_of_pairs_remove(pv0, h as int);
                }
                self.pairs.remove(h);
                proof {
                    let pv1 = pairs_view(self.pairs@);
                    assert(pv1 =~= pv0.remove(h as int));
                    assert(forall|j: int|
                        0 <= j < pv1.len() ==> #[trigger] pv1[j] == (if j < h as int {
                            pv0[j]
                        } else {
                            pv0[j + 1]
                        }));
                    assert(forall|j: int| 0 <= j < pv1.len() ==> (#[trigger] pv1[j]).0 != key@);
                    assert(unique_keys(pv1));
                }
            },
            None => {
                proof {
                    lemma_map_of_pairs_not_found(pv0, key@);
                    assert(map_of_pairs(pv0).remove(key@) =~= map_of_pairs(pv0));
                }
            },
        }
        let ghost pv1 = pairs_view(self.pairs@);
        proof {
            assert(unique_keys(pv1));
            assert(forall|j: int| 0 <= j < pv1.len() ==> (#[trigger] pv1[j]).0 != key@);
            assert(map_of_pairs(pv1) == old(self)@.remove(key@));
        }
        let kv = vstd::slice::slice_to_vec(key);
        self.pairs.push((kv, value));
        proof {
            assert(pairs_view(self.pairs@) =~= pv1.push((key@, value@)));
            lemma_map_of_pairs_push(pv1, key@, value@);
            assert(map_of_pairs(pv1).insert(key@, value@) =~= old(self)@.insert(key@, value@));
            assert(forall|j: int|
                0 <= j < pv1.len() ==> (#[trigger] pv1.push((key@, value@))[j]) == pv1[j]);
        }
    }

    /// An identical copy of the metadata store.
    pub fn duplicate(&self) -> (r: Metadata)
        ensures
            r.pairs_seq() == self.pairs_seq(),
            r@ == self@,
            r.wf() == self.wf(),
    {
        let mut np: Vec<(Vec<u8>, Vec<u8>)> = Vec::new();
        let n = self.pairs.len();
        for i in 0..n
            invariant
                n == self.pairs@.len(),
                np@.len() == i,
                forall|j: int|
                    0 <= j < i ==> (#[trigger] np@[j]).0@ == self.pairs@[j].0@ && np@[j].1@
                        == self.pairs@[j].1@,
        {
            let k = self.pairs[i].0.clone();
            let v = self.pairs[i].1.clone();
            proof {
                assert(k@ =~= self.pairs@[i as int].0@);
                assert(v@ =~= self.pairs@[i as int].1@);
            }
            np.push((k, v));
        }
        let r = Metadata { pairs: np };
        proof {
            assert(forall|j: int|
                0 <= j < np@.len() ==> #[trigger] pairs_view(np@)[j] == pairs_view(
                    self.pairs@,
                )[j]);
            assert(r.pairs_seq() =~= self.pairs_seq());
        }
        r
    }

    /// The whole map as one serialized blob, written back on every change.
    pub fn encode(&self) -> (r: Result<Vec<u8>, Error>)
        ensures
            r is Ok,
            r matches Ok(bytes) ==> bytes@ == meta_encoding(self.pairs_seq()) && meta_decoding(
                bytes@,
            ) == Some(self.pairs_seq()) && bytes@.len() > 0,
    {
        match bincode_encode_pairs(&self.pairs) {
            Ok(bytes) => Ok(bytes),
            Err(msg) => Err(Error::Internal(msg)),
        }
    }

    /// Rebuilds a metadata store from its serialized blob: an empty blob is
    /// the empty map, a malformed blob a fatal internal error.
    pub fn load(bytes: &Vec<u8>) -> (r: Result<Metadata, Error>)
        ensures
            match r {
                Ok(md) => md.wf() && recovered_meta(bytes@) == Some(md@),
                Err(e) => recovered_meta(bytes@) is None && e matches Error::Internal(_),
            },
    {
        if bytes.len() == 0 {
            return Ok(Metadata::new());
        }
        let decoded = match bincode_decode_pairs(bytes) {
            Ok(p) => p,
            Err(msg) => {
                return Err(Error::Internal(msg));
            },
        };
        let ghost pv = pairs_view(decoded@);
        let mut md = Metadata::new();
        let n = decoded.len();
        for i in 0..n
            invariant
                n == decoded@.len(),
                pv == pairs_view(decoded@),
                md.wf(),
                md@ == map_of_pairs(pv.take(i as int)),
        {
            md.set(decoded[i].0.as_slice(), decoded[i].1.clone());
            proof {
                assert(pv.take(i + 1).drop_last() =~= pv.take(i as int));
                assert(pv.take(i + 1).last() == pv[i as int]);
            }
        }
        proof {
            assert(pv.take(n as int) =~= pv);
        }
        Ok(md)
    }
}

} // verus!
