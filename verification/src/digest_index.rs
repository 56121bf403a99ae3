use std::collections::HashMap;
use vstd::prelude::*;
use crate::digest::Digest;

verus! {

/// The first position at or after `from` that holds `digest`, or the
/// length of the list where there is none.
pub open spec fn first_position(digests: Seq<Digest>, digest: Digest, from: int) -> int
    decreases digests.len() - from,
{
    if from < 0 || from >= digests.len() {
        digests.len() as int
    } else if digests[from] == digest {
        from
    } else {
        first_position(digests, digest, from + 1)
    }
}

/// A digest is found at a position that holds it and that no position
/// which holds it precedes.
pub proof fn lemma_position_found(digests: Seq<Digest>, digest: Digest, from: int, position: int)
    requires
        0 <= from <= position < digests.len(),
        digests[position] == digest,
        forall|q: int| from <= q < position ==> digests[q] != digest,
    ensures
        first_position(digests, digest, from) == position,
    decreases position - from,
{
    if from < position {
        lemma_position_found(digests, digest, from + 1, position);
    }
}

/// A digest that no position holds is not found.
pub proof fn lemma_position_missing(digests: Seq<Digest>, digest: Digest, from: int)
    requires
        0 <= from <= digests.len(),
        forall|q: int| from <= q < digests.len() ==> digests[q] != digest,
    ensures
        first_position(digests, digest, from) == digests.len(),
    decreases digests.len() - from,
{
    if from < digests.len() {
        lemma_position_missing(digests, digest, from + 1);
    }
}

/// The first eight bytes of a digest as an integer.
pub open spec fn spec_prefix(digest: Digest) -> u64 {
    vstd::bytes::spec_u64_from_le_bytes(digest@.subrange(0, 8))
}

/// The first eight bytes of a digest as an integer.
fn prefix(digest: &Digest) -> (r: u64)
    ensures
        r == spec_prefix(*digest),
{
    vstd::bytes::u64_from_le_bytes(vstd::slice::slice_subrange(digest.bytes.as_slice(), 0, 8))
}

/// Whether the positions of a bucket rise, and are positions of digests
/// that begin with the key of the bucket.
pub open spec fn bucket_ok(list: Seq<usize>, key: u64, digests: Seq<Digest>) -> bool {
    &&& forall|i: int|
        0 <= i < list.len() ==> (#[trigger] list[i]) < digests.len() && spec_prefix(
            digests[list[i] as int],
        ) == key
    &&& forall|i: int, j: int| 0 <= i < j < list.len() ==> list[i] < list[j]
}

/// Whether a position is in the bucket of a key.
pub open spec fn listed(buckets: Map<u64, Vec<usize>>, key: u64, position: int) -> bool {
    buckets.contains_key(key) && buckets[key]@.contains(position as usize)
}

/// A list of digests in which a digest is found without going through the
/// list: the positions of the digests are kept, in rising order, under the
/// first eight bytes of each.
#[derive(Debug)]
pub struct DigestIndex {
    digests: Vec<Digest>,
    buckets: HashMap<u64, Vec<usize>>,
}

impl View for DigestIndex {
    type V = Seq<Digest>;

    closed spec fn view(&self) -> Seq<Digest> {
        self.digests@
    }
}

impl DigestIndex {
    /// Whether every digest is listed in the bucket of its first bytes,
    /// and the buckets list nothing else.
    pub closed spec fn wf(&self) -> bool {
        &&& forall|p: int|
            0 <= p < self@.len() ==> listed(self.buckets@, spec_prefix(#[trigger] self@[p]), p)
        &&& forall|k: u64| #[trigger]
            self.buckets@.contains_key(k) ==> bucket_ok(self.buckets@[k]@, k, self@)
    }

    /// The list without digests.
    pub fn new() -> (r: DigestIndex)
        ensures
            r.wf(),
            r@ == Seq::<Digest>::empty(),
    {
        broadcast use vstd::std_specs::hash::group_hash_axioms;

        DigestIndex { digests: Vec::new(), buckets: HashMap::new() }
    }

    /// The first position of a digest, if the list holds it.
    pub fn find(&self, digest: &Digest) -> (r: Option<usize>)
        requires
            self.wf(),
        ensures
            match r {
                Some(i) => i < self@.len() && self@[i as int] == *digest && i == first_position(
                    self@,
                    *digest,
                    0,
                ),
                None => !self@.contains(*digest) && first_position(self@, *digest, 0)
                    == self@.len(),
            },
    {
        broadcast use vstd::std_specs::hash::group_hash_axioms;

        let key = prefix(digest);
        let list = match self.buckets.get(&key) {
            Some(list) => list,
            None => {
                proof {
                    assert forall|q: int| 0 <= q < self@.len() implies self@[q] != *digest by {
                        if self@[q] == *digest {
                            assert(listed(self.buckets@, spec_prefix(self@[q]), q));
                        }
                    }
                    lemma_position_missing(self@, *digest, 0);
                }
                return None;
            },
        };
        assert(self.buckets@.contains_key(key) && self.buckets@[key] == *list);
        assert(bucket_ok(list@, key, self@));
        let mut i: usize = 0;
        while i < list.len()
            invariant
                i <= list.len(),
                self.wf(),
                key == spec_prefix(*digest),
                self.buckets@.contains_key(key),
                self.buckets@[key] == *list,
                bucket_ok(list@, key, self@),
                self@.len() == self.digests.len(),
                forall|j: int| 0 <= j < i ==> self@[list@[j] as int] != *digest,
            decreases list.len() - i,
        {
            let position = list[i];
            if self.digests[position] == *digest {
                proof {
                    assert forall|q: int| 0 <= q < position implies self@[q] != *digest by {
                        if self@[q] == *digest {
                            assert(listed(self.buckets@, spec_prefix(self@[q]), q));
                            let j = choose|j: int|
                                0 <= j < list@.len() && list@[j] == q as usize;
                            if j < i {
                                assert(self@[list@[j] as int] != *digest);
                            } else if j > i {
                                assert(list@[i as int] < list@[j]);
                            }
                        }
                    }
                    lemma_position_found(self@, *digest, 0, position as int);
                }
                return Some(position);
            }
            i = i + 1;
        }
        proof {
            assert forall|q: int| 0 <= q < self@.len() implies self@[q] != *digest by {
                if self@[q] == *digest {
                    assert(listed(self.buckets@, spec_prefix(self@[q]), q));
                    let j = choose|j: int| 0 <= j < list@.len() && list@[j] == q as usize;
                    assert(self@[list@[j] as int] != *digest);
                }
            }
            lemma_position_missing(self@, *digest, 0);
        }
        None
    }

    /// Adds a digest behind the others.
    pub fn push(&mut self, digest: Digest)
        requires
            old(self).wf(),
        ensures
            final(self).wf(),
            final(self)@ == old(self)@.push(digest),
    {
        broadcast use vstd::std_specs::hash::group_hash_axioms;

        let key = prefix(&digest);
        let position = self.digests.len();
        let mut list = match self.buckets.remove(&key) {
            Some(list) => list,
            None => Vec::new(),
        };
        let ghost earlier = list@;
        assert(bucket_ok(earlier, key, old(self)@));
        self.digests.push(digest);
        list.push(position);
        self.buckets.insert(key, list);
        proof {
            let after = self@;
            assert(list@ == earlier.push(position));
            assert(self.buckets@ =~= old(self).buckets@.insert(key, list));
            assert forall|p: int| 0 <= p < after.len() implies listed(
                self.buckets@,
                spec_prefix(#[trigger] after[p]),
                p,
            ) by {
                if p < position {
                    assert(after[p] == old(self)@[p]);
                    let k = spec_prefix(after[p]);
                    assert(listed(old(self).buckets@, k, p));
                    if k == key {
                        let j = choose|j: int| 0 <= j < earlier.len() && earlier[j] == p as usize;
                        assert(list@[j] == p as usize);
                    }
                } else {
                    assert(list@[earlier.len() as int] == position);
                }
            }
            assert forall|k: u64| #[trigger] self.buckets@.contains_key(k) implies bucket_ok(
                self.buckets@[k]@,
                k,
                after,
            ) by {
                if k == key {
                    assert forall|i: int| 0 <= i < list@.len() implies (#[trigger] list@[i])
                        < after.len() && spec_prefix(after[list@[i] as int]) == key by {
                        if i < earlier.len() {
                            assert(list@[i] == earlier[i]);
                            assert(after[earlier[i] as int] == old(self)@[earlier[i] as int]);
                        }
                    }
                    assert forall|i: int, j: int| 0 <= i < j < list@.len() implies list@[i]
                        < list@[j] by {
                        assert(list@[i] == earlier[i]);
                        if j < earlier.len() {
                            assert(list@[j] == earlier[j]);
                        }
                    }
                } else {
                    let other = old(self).buckets@[k]@;
                    assert(bucket_ok(other, k, old(self)@));
                    assert forall|i: int| 0 <= i < other.len() implies (#[trigger] other[i])
                        < after.len() && spec_prefix(after[other[i] as int]) == k by {
                        assert(after[other[i] as int] == old(self)@[other[i] as int]);
                    }
                }
            }
        }
    }
}

} // verus!
