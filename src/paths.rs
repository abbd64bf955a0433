use std::collections::hash_map::DefaultHasher;
use std::collections::HashMap;
use std::hash::Hasher;
use vstd::prelude::*;
use vstd::std_specs::hash::DefaultHasherAdditionalSpecFns;
use vstd::utf8::encode_utf8;

verus! {

/// The bucket of a path in a path index: the standard library's default
/// hash (fixed keys, so the same in every process) of its UTF-8 bytes.
pub open spec fn path_bucket(p: Seq<char>) -> u64 {
    DefaultHasher::spec_finish(seq![encode_utf8(p)])
}

/// The bucket of `p`.
pub fn bucket_of_path(p: &str) -> (r: u64)
    ensures
        r == path_bucket(p@),
{
    let mut h = DefaultHasher::new();
    h.write(p.as_bytes());
    proof {
        assert(h@ =~= seq![encode_utf8(p@)]);
    }
    h.finish()
}

/// An index over a list of distinct paths: for each bucket, the positions
/// of the paths in it.  The list itself is held by the owner of the index.
pub struct PathIndex {
    buckets: HashMap<u64, Vec<usize>>,
}

impl PathIndex {
    /// Whether this indexes the paths `keys`.
    pub closed spec fn indexes(&self, keys: Seq<Seq<char>>) -> bool {
        &&& forall|i: int|
            0 <= i < keys.len() ==> {
                let b = path_bucket(#[trigger] keys[i]);
                self.buckets@.contains_key(b) && self.buckets@[b]@.contains(i as usize)
            }
        &&& forall|b: u64, j: int| #[trigger]
            self.buckets@.contains_key(b) && 0 <= j < self.buckets@[b]@.len() ==> {
                let x = #[trigger] self.buckets@[b]@[j];
                x < keys.len() && path_bucket(keys[x as int]) == b
            }
    }

    /// The positions that may hold a path of bucket `b`.
    pub closed spec fn candidates(&self, b: u64) -> Seq<usize> {
        if self.buckets@.contains_key(b) {
            self.buckets@[b]@
        } else {
            Seq::empty()
        }
    }

    /// A position of `keys` whose path has bucket `b` is a candidate, and
    /// every candidate is such a position.
    pub proof fn lemma_candidates(&self, keys: Seq<Seq<char>>, b: u64)
        requires
            self.indexes(keys),
        ensures
            forall|i: int|
                0 <= i < keys.len() && path_bucket(#[trigger] keys[i]) == b ==> self.candidates(
                    b,
                ).contains(i as usize),
            forall|j: int|
                0 <= j < self.candidates(b).len() ==> (#[trigger] self.candidates(b)[j]) < keys.len()
                    && path_bucket(keys[self.candidates(b)[j] as int]) == b,
    {
    }

    pub fn new() -> (r: PathIndex)
        ensures
            r.indexes(Seq::empty()),
    {
        PathIndex { buckets: HashMap::new() }
    }

    /// The positions that may hold a path of bucket `b`.
    pub fn candidates_of(&self, b: u64) -> (r: Vec<usize>)
        ensures
            r@ == self.candidates(b),
    {
        match self.buckets.get(&b) {
            Some(v) => v.clone(),
            None => Vec::new(),
        }
    }

    /// Indexes one more path, `key` of bucket `b`, at the end of the list.
    pub fn add(&mut self, Ghost(keys): Ghost<Seq<Seq<char>>>, Ghost(key): Ghost<Seq<char>>, b: u64, pos: usize)
        requires
            old(self).indexes(keys),
            b == path_bucket(key),
            pos == keys.len(),
        ensures
            final(self).indexes(keys.push(key)),
    {
        let ghost old_buckets = self.buckets@;
        let mut positions: Vec<usize> = match self.buckets.remove(&b) {
            Some(v) => v,
            None => Vec::new(),
        };
        let ghost old_positions = positions@;
        proof {
            assert(old_buckets.contains_key(b) ==> old_positions == old_buckets[b]@);
            assert(!old_buckets.contains_key(b) ==> old_positions == Seq::<usize>::empty());
        }
        positions.push(pos);
        self.buckets.insert(b, positions);
        let ghost nk = keys.push(key);
        proof {
            assert forall|i: int| 0 <= i < nk.len() implies {
                let c = path_bucket(#[trigger] nk[i]);
                self.buckets@.contains_key(c) && self.buckets@[c]@.contains(i as usize)
            } by {
                if i == pos as int {
                    assert(self.buckets@[b]@[old_positions.len() as int] == pos);
                } else {
                    assert(nk[i] == keys[i]);
                    let c = path_bucket(keys[i]);
                    assert(old_buckets.contains_key(c) && old_buckets[c]@.contains(i as usize));
                    if c == b {
                        let j = choose|j: int| 0 <= j < old_buckets[c]@.len() && old_buckets[c]@[j] == i as usize;
                        assert(self.buckets@[b]@[j] == i as usize);
                    }
                }
            }
            assert forall|c: u64, j: int| #[trigger]
                self.buckets@.contains_key(c) && 0 <= j < self.buckets@[c]@.len() implies {
                let x = #[trigger] self.buckets@[c]@[j];
                x < nk.len() && path_bucket(nk[x as int]) == c
            } by {
                if c == b {
                    if j < old_positions.len() {
                        assert(old_buckets[c]@[j] == old_positions[j]);
                    }
                } else {
                    assert(self.buckets@[c] == old_buckets[c]);
                }
            }
        }
    }
}

} // verus!
