use std::collections::HashMap;
use vstd::prelude::*;

use crate::backup::{Backup, BackupBuilder, BackupFile, NewBackupFile};
use crate::names::{
    lemma_name_less_irreflexive, lemma_name_less_total, lemma_name_less_transitive, name_less, name_lt,
};
use crate::util::bucket_of;

verus! {

/// What the vault records of one stored content: its digest and its size.
#[derive(Clone, Copy, Debug)]
pub struct DataBlock {
    pub hash: crate::util::Hash,
    pub size: u64,
}

/// The content table shared by all snapshots of a vault: digest to size.
/// Blocks live in an arena; a bucket index over the first bytes of the digest
/// finds them.
pub struct DataBlocks {
    data: Vec<DataBlock>,
    buckets: HashMap<u32, Vec<usize>>,
}

/// Digest to size, over the blocks of `s`.
pub open spec fn block_map(s: Seq<DataBlock>) -> Map<Seq<u8>, u64> {
    Map::new(
        |h: Seq<u8>| exists|i: int| 0 <= i < s.len() && (#[trigger] s[i]).hash@ == h,
        |h: Seq<u8>| s[choose|i: int| 0 <= i < s.len() && (#[trigger] s[i]).hash@ == h].size,
    )
}

/// Whether the blocks of `s` agree on the size of each digest.
pub open spec fn sizes_agree(s: Seq<DataBlock>) -> bool {
    forall|i: int, j: int|
        0 <= i < s.len() && 0 <= j < s.len() && (#[trigger] s[i]).hash@ == (#[trigger] s[j]).hash@
            ==> s[i].size == s[j].size
}

/// Appending a block whose size agrees with the blocks before it.
proof fn lemma_block_map_push(s: Seq<DataBlock>, b: DataBlock)
    requires
        sizes_agree(s.push(b)),
    ensures
        block_map(s.push(b)) == (if block_map(s).contains_key(b.hash@) {
            block_map(s)
        } else {
            block_map(s).insert(b.hash@, b.size)
        }),
        block_map(s.push(b)).contains_key(b.hash@) && block_map(s.push(b))[b.hash@] == b.size,
{
    let t = s.push(b);
    let n = s.len() as int;
    assert(t[n] == b);
    assert forall|i: int| 0 <= i < n implies t[i] == s[i] by {}
    let target = if block_map(s).contains_key(b.hash@) {
        block_map(s)
    } else {
        block_map(s).insert(b.hash@, b.size)
    };
    assert forall|h: Seq<u8>| #[trigger] block_map(t).contains_key(h) <==> target.contains_key(h) by {
        if block_map(t).contains_key(h) && h != b.hash@ {
            let i = choose|i: int| 0 <= i < t.len() && (#[trigger] t[i]).hash@ == h;
            assert(s[i] == t[i]);
        }
        if target.contains_key(h) && h != b.hash@ {
            let i = choose|i: int| 0 <= i < s.len() && (#[trigger] s[i]).hash@ == h;
            assert(s[i] == t[i]);
        }
    }
    assert forall|h: Seq<u8>| #[trigger] block_map(t).contains_key(h) implies block_map(t)[h] == target[h] by {
        let i = choose|i: int| 0 <= i < t.len() && (#[trigger] t[i]).hash@ == h;
        if block_map(s).contains_key(h) {
            let k = choose|k: int| 0 <= k < s.len() && (#[trigger] s[k]).hash@ == h;
            assert(t[k] == s[k]);
        }
    }
    assert(block_map(t) =~= target);
}

impl DataBlocks {
    pub closed spec fn wf(&self) -> bool {
        &&& forall|i: int, j: int|
            0 <= i < self.data@.len() && 0 <= j < self.data@.len() && i != j
                ==> (#[trigger] self.data@[i]).hash@ != (#[trigger] self.data@[j]).hash@
        &&& forall|i: int|
            0 <= i < self.data@.len() ==> {
                let b = bucket_of(#[trigger] self.data@[i].hash@);
                self.buckets@.contains_key(b) && self.buckets@[b]@.contains(i as usize)
            }
        &&& forall|b: u32, j: int| #[trigger]
            self.buckets@.contains_key(b) && 0 <= j < self.buckets@[b]@.len() ==> {
                let x = #[trigger] self.buckets@[b]@[j];
                x < self.data@.len() && bucket_of(self.data@[x as int].hash@) == b
            }
    }

    /// The blocks in arena order.
    pub closed spec fn blocks(&self) -> Seq<DataBlock> {
        self.data@
    }

    /// Digest to size.
    pub open spec fn view(&self) -> Map<Seq<u8>, u64> {
        block_map(self.blocks())
    }

    pub fn new() -> (r: DataBlocks)
        ensures
            r.wf(),
            r.blocks() == Seq::<DataBlock>::empty(),
            r@ == Map::<Seq<u8>, u64>::empty(),
    {
        let r = DataBlocks { data: Vec::new(), buckets: HashMap::new() };
        assert(r@ =~= Map::<Seq<u8>, u64>::empty());
        r
    }

    /// The block of digest `hash`.
    pub fn get(&self, hash: &crate::util::Hash) -> (r: Option<DataBlock>)
        requires
            self.wf(),
        ensures
            match r {
                Some(b) => self@.contains_key(hash@) && self@[hash@] == b.size && b.hash@ == hash@,
                None => !self@.contains_key(hash@),
            },
    {
        let bucket = hash.bucket();
        let len = self.data.len();
        match self.buckets.get(&bucket) {
            Some(positions) => {
                let mut k: usize = 0;
                while k < positions.len()
                    invariant
                        self.wf(),
                        self.buckets@.contains_key(bucket),
                        *positions == self.buckets@[bucket],
                        bucket == bucket_of(hash@),
                        len == self.data@.len(),
                        k <= positions@.len(),
                        forall|j: int| 0 <= j < k ==> self.data@[positions@[j] as int].hash@ != hash@,
                    decreases positions@.len() - k,
                {
                    let x = positions[k];
                    proof {
                        assert(x < self.data@.len() && bucket_of(self.data@[x as int].hash@) == bucket);
                    }
                    let b = self.data[x];
                    if b.hash.same(hash) {
                        proof {
                            self.lemma_lookup(x as int);
                            assert(b == self.data@[x as int]);
                            assert(self.data@[x as int].hash@ == hash@);
                        }
                        return Some(b);
                    }
                    k = k + 1;
                }
                proof {
                    if self@.contains_key(hash@) {
                        let i = choose|i: int| 0 <= i < self.data@.len() && (#[trigger] self.data@[i]).hash@ == hash@;
                        assert(bucket_of(self.data@[i].hash@) == bucket);
                        assert(self.buckets@[bucket]@.contains(i as usize));
                        assert(positions@.contains(i as usize));
                        let j = choose|j: int| 0 <= j < positions@.len() && #[trigger] positions@[j] == i as usize;
                        assert(positions@[j] as int == i);
                        assert(self.data@[positions@[j] as int].hash@ != hash@);
                    }
                }
                None
            },
            None => {
                proof {
                    if self@.contains_key(hash@) {
                        let i = choose|i: int| 0 <= i < self.data@.len() && (#[trigger] self.data@[i]).hash@ == hash@;
                        assert(self.buckets@.contains_key(bucket_of(self.data@[i].hash@)));
                    }
                }
                None
            },
        }
    }

    /// The size recorded under a digest is that of the one block holding it.
    proof fn lemma_lookup(&self, i: int)
        requires
            self.wf(),
            0 <= i < self.data@.len(),
        ensures
            self@.contains_key(self.data@[i].hash@),
            self@[self.data@[i].hash@] == self.data@[i].size,
    {
        let h = self.data@[i].hash@;
        let j = choose|j: int| 0 <= j < self.data@.len() && (#[trigger] self.data@[j]).hash@ == h;
        if i != j {
            assert(self.data@[i].hash@ != self.data@[j].hash@);
        }
    }

    /// The first `n` blocks of the arena make up the table restricted to
    /// their digests.
    proof fn lemma_prefix_map(&self, n: int)
        requires
            self.wf(),
            0 <= n < self.data@.len(),
        ensures
            !block_map(self.data@.take(n)).contains_key(self.data@[n].hash@),
            block_map(self.data@.take(n + 1)) =~= block_map(self.data@.take(n)).insert(
                self.data@[n].hash@,
                self.data@[n].size,
            ),
    {
        let d = self.data@;
        let t = d.take(n);
        let t1 = d.take(n + 1);
        if block_map(t).contains_key(d[n].hash@) {
            let i = choose|i: int| 0 <= i < t.len() && (#[trigger] t[i]).hash@ == d[n].hash@;
            assert(t[i] == d[i]);
        }
        assert forall|h: Seq<u8>| #[trigger] block_map(t1).contains_key(h) implies block_map(t).insert(
            d[n].hash@,
            d[n].size,
        ).contains_key(h) && block_map(t1)[h] == block_map(t).insert(d[n].hash@, d[n].size)[h] by {
            let i = choose|i: int| 0 <= i < t1.len() && (#[trigger] t1[i]).hash@ == h;
            assert(t1[i] == d[i]);
            if i < n {
                assert(t[i] == d[i]);
                let k = choose|k: int| 0 <= k < t.len() && (#[trigger] t[k]).hash@ == h;
                assert(t[k] == d[k]);
                if k != i {
                    assert(d[k].hash@ != d[i].hash@);
                }
            }
        }
        assert forall|h: Seq<u8>| #[trigger] block_map(t).insert(d[n].hash@, d[n].size).contains_key(h)
            implies block_map(t1).contains_key(h) by {
            if h == d[n].hash@ {
                assert(t1[n] == d[n]);
            } else {
                let i = choose|i: int| 0 <= i < t.len() && (#[trigger] t[i]).hash@ == h;
                assert(t1[i] == t[i]);
            }
        }
    }

    /// Adds a block for a digest that the table does not hold yet.
    pub fn insert(&mut self, block: DataBlock)
        requires
            old(self).wf(),
            !old(self)@.contains_key(block.hash@),
        ensures
            final(self).wf(),
            final(self).blocks() == old(self).blocks().push(block),
            final(self)@ == old(self)@.insert(block.hash@, block.size),
    {
        let ghost old_data = self.data@;
        let ghost old_buckets = self.buckets@;
        let bucket = block.hash.bucket();
        let n = self.data.len();
        let mut positions: Vec<usize> = match self.buckets.remove(&bucket) {
            Some(v) => v,
            None => Vec::new(),
        };
        let ghost old_positions = positions@;
        proof {
            assert(old_buckets.contains_key(bucket) ==> old_positions == old_buckets[bucket]@);
            assert(!old_buckets.contains_key(bucket) ==> old_positions == Seq::<usize>::empty());
        }
        positions.push(n);
        self.buckets.insert(bucket, positions);
        self.data.push(block);
        proof {
            assert forall|i: int, j: int|
                0 <= i < self.data@.len() && 0 <= j < self.data@.len() && i != j
                    implies (#[trigger] self.data@[i]).hash@ != (#[trigger] self.data@[j]).hash@ by {
                if i == n as int && j < n {
                    assert(old_data[j] == self.data@[j]);
                    assert(block_map(old_data).contains_key(old_data[j].hash@));
                } else if j == n as int && i < n {
                    assert(old_data[i] == self.data@[i]);
                    assert(block_map(old_data).contains_key(old_data[i].hash@));
                } else {
                    assert(old_data[i] == self.data@[i]);
                    assert(old_data[j] == self.data@[j]);
                }
            }
            assert forall|i: int| 0 <= i < self.data@.len() implies {
                let b = bucket_of(#[trigger] self.data@[i].hash@);
                self.buckets@.contains_key(b) && self.buckets@[b]@.contains(i as usize)
            } by {
                if i == n as int {
                    assert(self.buckets@[bucket]@[old_positions.len() as int] == n);
                } else {
                    assert(old_data[i] == self.data@[i]);
                    let b = bucket_of(old_data[i].hash@);
                    assert(old_buckets.contains_key(b) && old_buckets[b]@.contains(i as usize));
                    if b == bucket {
                        let j = choose|j: int| 0 <= j < old_buckets[b]@.len() && old_buckets[b]@[j] == i as usize;
                        assert(self.buckets@[bucket]@[j] == i as usize);
                    }
                }
            }
            assert forall|b: u32, j: int| #[trigger]
                self.buckets@.contains_key(b) && 0 <= j < self.buckets@[b]@.len() implies {
                let x = #[trigger] self.buckets@[b]@[j];
                x < self.data@.len() && bucket_of(self.data@[x as int].hash@) == b
            } by {
                if b == bucket {
                    if j < old_positions.len() {
                        let x = old_positions[j];
                        assert(old_buckets[b]@[j] == x);
                        assert(self.data@[x as int] == old_data[x as int]);
                    }
                } else {
                    let x = old_buckets[b]@[j];
                    assert(self.data@[x as int] == old_data[x as int]);
                }
            }
            assert forall|h: Seq<u8>| #[trigger] block_map(self.data@).contains_key(h) implies
                block_map(old_data).insert(block.hash@, block.size).contains_key(h)
                && block_map(self.data@)[h] == block_map(old_data).insert(block.hash@, block.size)[h] by {
                let i = choose|i: int| 0 <= i < self.data@.len() && (#[trigger] self.data@[i]).hash@ == h;
                self.lemma_lookup(i);
                if i < n {
                    assert(old_data[i] == self.data@[i]);
                    assert(block_map(old_data).contains_key(h));
                    let j = choose|j: int| 0 <= j < old_data.len() && (#[trigger] old_data[j]).hash@ == h;
                    assert(self.data@[j] == old_data[j]);
                    if i != j {
                        assert(self.data@[i].hash@ != self.data@[j].hash@);
                    }
                }
            }
            assert forall|h: Seq<u8>| #[trigger] block_map(old_data).insert(block.hash@, block.size).contains_key(h)
                implies block_map(self.data@).contains_key(h) by {
                if h == block.hash@ {
                    assert(self.data@[n as int] == block);
                } else {
                    let i = choose|i: int| 0 <= i < old_data.len() && (#[trigger] old_data[i]).hash@ == h;
                    assert(self.data@[i] == old_data[i]);
                }
            }
            assert(block_map(self.data@) =~= block_map(old_data).insert(block.hash@, block.size));
        }
    }

    /// Whether every file of `backup` has a block here; `MissingBlock` names
    /// one that has none.
    pub fn covers(&self, backup: &Backup) -> (r: Result<(), IntegrityError>)
        requires
            self.wf(),
            backup.wf(),
        ensures
            r is Ok <==> blocks_cover(self@, *backup),
            r matches Err(e) ==> e is MissingBlock,
    {
        let files = backup.iter_files();
        let mut i: usize = 0;
        while i < files.len()
            invariant
                self.wf(),
                backup.wf(),
                files@ == backup.file_list(),
                i <= files@.len(),
                forall|j: int| 0 <= j < i ==> self@.contains_key((#[trigger] files@[j]).hash@),
            decreases files@.len() - i,
        {
            let f = &files[i];
            if self.get(&f.hash).is_none() {
                proof {
                    backup.lemma_files_have_inos(i as int);
                }
                return Err(IntegrityError::MissingBlock { ino: f.ino, hash: f.hash });
            }
            i = i + 1;
        }
        proof {
            assert forall|ino: u64| #[trigger] backup.files_view().contains_key(ino) implies self@.contains_key(
                backup.files_view()[ino].hash@,
            ) by {
                backup.lemma_file_listed(ino);
                let j = choose|j: int|
                    0 <= j < backup.file_list().len() && #[trigger] backup.file_list()[j]
                        == backup.files_view()[ino];
                assert(self@.contains_key(files@[j].hash@));
            }
        }
        Ok(())
    }

    /// A table of the blocks of `blocks`; a digest listed twice must have one
    /// size (else `SizeMismatch`).
    pub fn from_blocks(blocks: &[DataBlock]) -> (r: Result<DataBlocks, IntegrityError>)
        ensures
            match r {
                Ok(t) => t.wf() && sizes_agree(blocks@) && t@ == block_map(blocks@),
                Err(e) => !sizes_agree(blocks@) && e is SizeMismatch,
            },
    {
        let mut table = DataBlocks::new();
        let mut i: usize = 0;
        proof {
            assert(blocks@.take(0) =~= Seq::<DataBlock>::empty());
            assert(block_map(Seq::<DataBlock>::empty()) =~= Map::<Seq<u8>, u64>::empty());
        }
        while i < blocks.len()
            invariant
                table.wf(),
                i <= blocks@.len(),
                sizes_agree(blocks@.take(i as int)),
                table@ == block_map(blocks@.take(i as int)),
            decreases blocks@.len() - i,
        {
            let b = blocks[i];
            let ghost pre = blocks@.take(i as int);
            proof {
                assert(blocks@.take(i as int + 1) =~= pre.push(b));
            }
            match table.get(&b.hash) {
                Some(x) => {
                    if x.size != b.size {
                        proof {
                            let k = choose|k: int| 0 <= k < pre.len() && (#[trigger] pre[k]).hash@ == b.hash@;
                            assert(pre[k] == blocks@[k]);
                            assert(blocks@[i as int] == b);
                            if sizes_agree(blocks@) {
                                assert(blocks@[k].size == blocks@[i as int].size);
                                let k2 = choose|k2: int| 0 <= k2 < pre.len() && (#[trigger] pre[k2]).hash@ == b.hash@;
                                assert(pre[k2] == blocks@[k2]);
                                assert(blocks@[k2].size == blocks@[i as int].size);
                            }
                        }
                        return Err(
                            IntegrityError::SizeMismatch { hash: b.hash, recorded: x.size, observed: b.size },
                        );
                    }
                    proof {
                        let k = choose|k: int| 0 <= k < pre.len() && (#[trigger] pre[k]).hash@ == b.hash@;
                        assert forall|a: int, c: int|
                            0 <= a < pre.push(b).len() && 0 <= c < pre.push(b).len() && (#[trigger] pre.push(b)[a]).hash@
                                == (#[trigger] pre.push(b)[c]).hash@ implies pre.push(b)[a].size == pre.push(b)[c].size by {
                            if a < pre.len() && c == pre.len() {
                                assert(pre[a].size == pre[k].size);
                            } else if c < pre.len() && a == pre.len() {
                                assert(pre[c].size == pre[k].size);
                            } else if a < pre.len() && c < pre.len() {
                                assert(pre.push(b)[a] == pre[a]);
                                assert(pre.push(b)[c] == pre[c]);
                            }
                        }
                        lemma_block_map_push(pre, b);
                    }
                },
                None => {
                    proof {
                        assert forall|a: int, c: int|
                            0 <= a < pre.push(b).len() && 0 <= c < pre.push(b).len() && (#[trigger] pre.push(b)[a]).hash@
                                == (#[trigger] pre.push(b)[c]).hash@ implies pre.push(b)[a].size == pre.push(b)[c].size by {
                            if a < pre.len() && c == pre.len() {
                                assert(block_map(pre).contains_key(pre[a].hash@));
                            } else if c < pre.len() && a == pre.len() {
                                assert(block_map(pre).contains_key(pre[c].hash@));
                            } else if a < pre.len() && c < pre.len() {
                                assert(pre.push(b)[a] == pre[a]);
                                assert(pre.push(b)[c] == pre[c]);
                            }
                        }
                        lemma_block_map_push(pre, b);
                    }
                    table.insert(b);
                },
            }
            i = i + 1;
        }
        proof {
            assert(blocks@.take(blocks@.len() as int) =~= blocks@);
        }
        Ok(table)
    }

    /// The blocks, each digest once.
    pub fn as_slice(&self) -> (r: &[DataBlock])
        ensures
            r@ == self.blocks(),
    {
        self.data.as_slice()
    }
}

/// A broken invariant of the vault's records.  Such errors are not retried:
/// the operation that meets one is abandoned.
pub enum IntegrityError {
    /// One digest seen with two different sizes.
    SizeMismatch { hash: crate::util::Hash, recorded: u64, observed: u64 },
    /// A snapshot file whose digest has no block in the content table.
    MissingBlock { ino: u64, hash: crate::util::Hash },
    /// Two snapshots stored under one name.
    DuplicateName { name: String },
}

/// Whether every file of `b` has a block in `blocks`.
pub open spec fn blocks_cover(blocks: Map<Seq<u8>, u64>, b: Backup) -> bool {
    forall|ino: u64| #[trigger]
        b.files_view().contains_key(ino) ==> blocks.contains_key(b.files_view()[ino].hash@)
}

/// Merging the sizes of queued files into a content table: `None` where a
/// digest meets a size other than the one recorded for it.
pub open spec fn merge_sizes(m: Map<Seq<u8>, u64>, q: Seq<NewBackupFile>) -> Option<
    Map<Seq<u8>, u64>,
>
    decreases q.len(),
{
    if q.len() == 0 {
        Some(m)
    } else {
        match merge_sizes(m, q.drop_last()) {
            None => None,
            Some(m2) => {
                let f = q.last();
                if m2.contains_key(f.hash@) {
                    if m2[f.hash@] == f.size {
                        Some(m2)
                    } else {
                        None
                    }
                } else {
                    Some(m2.insert(f.hash@, f.size))
                }
            },
        }
    }
}

/// Once a merge fails, it stays failed.
proof fn lemma_merge_fails_on(m: Map<Seq<u8>, u64>, q: Seq<NewBackupFile>, n: int)
    requires
        0 <= n <= q.len(),
        merge_sizes(m, q.take(n)) is None,
    ensures
        merge_sizes(m, q) is None,
    decreases q.len() - n,
{
    if n < q.len() {
        assert(q.take(n + 1).drop_last() =~= q.take(n));
        lemma_merge_fails_on(m, q, n + 1);
    } else {
        assert(q.take(n) =~= q);
    }
}

/// The snapshots of `s` by name; where a name repeats, any of its snapshots.
pub open spec fn backup_map(s: Seq<(String, Backup)>) -> Map<Seq<char>, Backup> {
    Map::new(
        |n: Seq<char>| exists|i: int| 0 <= i < s.len() && (#[trigger] s[i]).0@ == n,
        |n: Seq<char>| s[choose|i: int| 0 <= i < s.len() && (#[trigger] s[i]).0@ == n].1,
    )
}

/// Whether the names of `s` are in strictly increasing name order.
pub open spec fn names_sorted(s: Seq<(String, Backup)>) -> bool {
    forall|i: int, j: int|
        0 <= i < j < s.len() ==> name_less((#[trigger] s[i]).0@, (#[trigger] s[j]).0@)
}

/// Whether no name repeats in `s`.
pub open spec fn names_unique(s: Seq<(String, Backup)>) -> bool {
    forall|i: int, j: int|
        0 <= i < s.len() && 0 <= j < s.len() && i != j ==> (#[trigger] s[i]).0@ != (
        #[trigger] s[j]).0@
}

/// The vault's records: snapshots by name, and the content table that all of
/// them share.  Every file of every snapshot has a block in the table.
pub struct Database {
    backups: Vec<(String, Backup)>,
    data_blocks: DataBlocks,
}

impl Database {
    pub closed spec fn wf(&self) -> bool {
        &&& self.data_blocks.wf()
        &&& names_unique(self.backups@)
        &&& names_sorted(self.backups@)
        &&& forall|i: int| 0 <= i < self.backups@.len() ==> (#[trigger] self.backups@[i]).1.wf()
        &&& forall|i: int|
            0 <= i < self.backups@.len() ==> blocks_cover(
                self.data_blocks@,
                (#[trigger] self.backups@[i]).1,
            )
    }

    /// The snapshots as stored, with their names.
    pub closed spec fn backup_list(&self) -> Seq<(String, Backup)> {
        self.backups@
    }

    /// The blocks of the content table as stored.
    pub closed spec fn block_list(&self) -> Seq<DataBlock> {
        self.data_blocks.blocks()
    }

    /// Snapshots by name.
    pub open spec fn backups_view(&self) -> Map<Seq<char>, Backup> {
        backup_map(self.backup_list())
    }

    /// The content table: digest to size.
    pub open spec fn blocks_view(&self) -> Map<Seq<u8>, u64> {
        block_map(self.block_list())
    }

    /// An empty database.
    pub fn new() -> (r: Database)
        ensures
            r.wf(),
            r.backups_view() == Map::<Seq<char>, Backup>::empty(),
            r.blocks_view() == Map::<Seq<u8>, u64>::empty(),
            r.backup_list() == Seq::<(String, Backup)>::empty(),
            r.block_list() == Seq::<DataBlock>::empty(),
    {
        let r = Database { backups: Vec::new(), data_blocks: DataBlocks::new() };
        assert(r.backups_view() =~= Map::<Seq<char>, Backup>::empty());
        r
    }

    /// Where the snapshot named `name` is, or would go in name order: the
    /// first position whose name does not come before `name`, and whether
    /// the name there is `name`.
    fn locate(&self, name: &str) -> (r: (usize, bool))
        requires
            self.wf(),
        ensures
            r.0 <= self.backups@.len(),
            forall|j: int| 0 <= j < r.0 ==> name_less((#[trigger] self.backups@[j]).0@, name@),
            r.1 ==> r.0 < self.backups@.len() && self.backups@[r.0 as int].0@ == name@,
            !r.1 ==> (r.0 < self.backups@.len() ==> name_less(name@, self.backups@[r.0 as int].0@))
                && forall|j: int| 0 <= j < self.backups@.len() ==> (#[trigger] self.backups@[j]).0@ != name@,
    {
        let len = self.backups.len();
        let mut i: usize = 0;
        while i < len && name_lt(self.backups[i].0.as_str(), name)
            invariant
                len == self.backups@.len(),
                i <= len,
                forall|j: int| 0 <= j < i ==> name_less((#[trigger] self.backups@[j]).0@, name@),
            decreases len - i,
        {
            i = i + 1;
        }
        let key = name.to_owned();
        if i < len && self.backups[i].0 == key {
            return (i, true);
        }
        proof {
            assert forall|j: int| 0 <= j < self.backups@.len() implies (#[trigger] self.backups@[j]).0@ != name@ by {
                if j < i {
                    lemma_name_less_irreflexive(name@);
                } else {
                    assert(!name_less(self.backups@[i as int].0@, name@));
                    assert(self.backups@[i as int].0@ != name@);
                    lemma_name_less_total(self.backups@[i as int].0@, name@);
                    if j > i {
                        lemma_name_less_transitive(name@, self.backups@[i as int].0@, self.backups@[j].0@);
                        lemma_name_less_irreflexive(name@);
                    }
                }
            }
            if i < len {
                lemma_name_less_total(self.backups@[i as int].0@, name@);
            }
        }
        (i, false)
    }

    proof fn lemma_at(&self, i: int)
        requires
            self.wf(),
            0 <= i < self.backups@.len(),
        ensures
            self.backups_view().contains_key(self.backups@[i].0@),
            self.backups_view()[self.backups@[i].0@] == self.backups@[i].1,
    {
        let n = self.backups@[i].0@;
        let j = choose|j: int| 0 <= j < self.backups@.len() && (#[trigger] self.backups@[j]).0@ == n;
        if i != j {
            assert(self.backups@[i].0@ != self.backups@[j].0@);
        }
    }

    /// The snapshot named `name`, read-only, joined with the content table.
    pub fn get_backup(&self, name: &str) -> (r: Option<BackupView<'_>>)
        requires
            self.wf(),
        ensures
            match r {
                Some(v) => {
                    &&& self.backups_view().contains_key(name@)
                    &&& *v.spec_backup() == self.backups_view()[name@]
                    &&& v.spec_name()@ == name@
                    &&& v.blocks_view() == self.blocks_view()
                    &&& v.wf()
                    &&& v.spec_backup().wf()
                },
                None => !self.backups_view().contains_key(name@),
            },
    {
        let (i, found) = self.locate(name);
        if found {
            proof {
                self.lemma_at(i as int);
            }
            let entry = &self.backups[i];
            Some(BackupView { name: entry.0.as_str(), backup: &entry.1, data_blocks: &self.data_blocks })
        } else {
            None
        }
    }

    /// The snapshots with their names, in name order.
    pub fn iter_backups(&self) -> (r: &[(String, Backup)])
        ensures
            r@ == self.backup_list(),
            self.wf() ==> names_sorted(r@),
            self.wf() ==> forall|i: int| 0 <= i < r@.len() ==> (#[trigger] r@[i]).1.wf(),
    {
        self.backups.as_slice()
    }

    /// The content table.
    pub fn data_blocks(&self) -> (r: &DataBlocks)
        ensures
            r.blocks() == self.block_list(),
            self.wf() ==> r.wf(),
            r@ == self.blocks_view(),
    {
        &self.data_blocks
    }

    /// The block of digest `hash`.
    pub fn get_data_block(&self, hash: &crate::util::Hash) -> (r: Option<DataBlock>)
        requires
            self.wf(),
        ensures
            match r {
                Some(b) => self.blocks_view().contains_key(hash@) && self.blocks_view()[hash@] == b.size
                    && b.hash@ == hash@,
                None => !self.blocks_view().contains_key(hash@),
            },
    {
        self.data_blocks.get(hash)
    }
    /// Stores `backup` under `name`, replacing the snapshot of that name;
    /// the snapshots stay in name order.
    fn put_backup(&mut self, name: &str, backup: Backup)
        requires
            old(self).wf(),
            backup.wf(),
            blocks_cover(old(self).blocks_view(), backup),
        ensures
            final(self).wf(),
            final(self).backups_view() == old(self).backups_view().insert(name@, backup),
            final(self).block_list() == old(self).block_list(),
    {
        let (p, found) = self.locate(name);
        let key = name.to_owned();
        let ghost old_list = self.backups@;
        let ghost old_view = self.backups_view();
        let ghost x = (key, backup);
        if found {
            self.backups.set(p, (key, backup));
            let ghost nl = self.backups@;
            proof {
                assert forall|a: int| 0 <= a < nl.len() implies (#[trigger] nl[a]).0@ == old_list[a].0@ by {}
                assert forall|a: int, b: int|
                    0 <= a < nl.len() && 0 <= b < nl.len() && a != b implies (#[trigger] nl[a]).0@ != (
                    #[trigger] nl[b]).0@ by {
                    assert(old_list[a].0@ != old_list[b].0@);
                }
                assert forall|a: int, b: int| 0 <= a < b < nl.len() implies name_less(
                    (#[trigger] nl[a]).0@,
                    (#[trigger] nl[b]).0@,
                ) by {
                    assert(name_less(old_list[a].0@, old_list[b].0@));
                }
                assert forall|a: int| 0 <= a < nl.len() implies (#[trigger] nl[a]).1.wf() && blocks_cover(
                    self.data_blocks@,
                    nl[a].1,
                ) by {
                    if a != p {
                        assert(nl[a] == old_list[a]);
                    }
                }
                assert forall|n: Seq<char>| #[trigger] self.backups_view().contains_key(n) <==> old_view.insert(
                    name@,
                    backup,
                ).contains_key(n) by {
                    if self.backups_view().contains_key(n) {
                        let j = choose|j: int| 0 <= j < nl.len() && (#[trigger] nl[j]).0@ == n;
                        assert(old_list[j].0@ == n);
                    }
                    if old_view.contains_key(n) {
                        let j = choose|j: int| 0 <= j < old_list.len() && (#[trigger] old_list[j]).0@ == n;
                        assert(nl[j].0@ == n);
                    }
                    if n == name@ {
                        assert(nl[p as int].0@ == n);
                    }
                }
                assert forall|n: Seq<char>| #[trigger] self.backups_view().contains_key(n) implies self.backups_view()[n]
                    == old_view.insert(name@, backup)[n] by {
                    let j = choose|j: int| 0 <= j < nl.len() && (#[trigger] nl[j]).0@ == n;
                    lemma_named_at(nl, j);
                    if j != p {
                        assert(nl[j] == old_list[j]);
                        lemma_named_at(old_list, j);
                    }
                }
                assert(self.backups_view() =~= old_view.insert(name@, backup));
            }
        } else {
            self.backups.insert(p, (key, backup));
            let ghost nl = self.backups@;
            proof {
                assert(nl =~= old_list.insert(p as int, x));
                assert forall|a: int| 0 <= a < nl.len() implies (#[trigger] nl[a]) == if a < p {
                    old_list[a]
                } else if a == p {
                    x
                } else {
                    old_list[a - 1]
                } by {}
                assert forall|a: int, b: int|
                    0 <= a < nl.len() && 0 <= b < nl.len() && a != b implies (#[trigger] nl[a]).0@ != (
                    #[trigger] nl[b]).0@ by {
                    if a != p && b != p {
                        let oa = if a < p { a } else { a - 1 };
                        let ob = if b < p { b } else { b - 1 };
                        assert(old_list[oa].0@ != old_list[ob].0@);
                    } else if a == p {
                        let ob = if b < p { b } else { b - 1 };
                        assert(old_list[ob].0@ != name@);
                    } else {
                        let oa = if a < p { a } else { a - 1 };
                        assert(old_list[oa].0@ != name@);
                    }
                }
                assert forall|a: int, b: int| 0 <= a < b < nl.len() implies name_less(
                    (#[trigger] nl[a]).0@,
                    (#[trigger] nl[b]).0@,
                ) by {
                    if b < p {
                        assert(name_less(old_list[a].0@, old_list[b].0@));
                    } else if b == p {
                        assert(name_less(old_list[a].0@, name@));
                    } else if a > p {
                        assert(name_less(old_list[a - 1].0@, old_list[b - 1].0@));
                    } else if a == p {
                        assert(name_less(name@, old_list[p as int].0@));
                        if b - 1 > p {
                            assert(name_less(old_list[p as int].0@, old_list[b - 1].0@));
                            lemma_name_less_transitive(name@, old_list[p as int].0@, old_list[b - 1].0@);
                        }
                    } else {
                        assert(name_less(old_list[a].0@, name@));
                        assert(name_less(name@, old_list[p as int].0@));
                        lemma_name_less_transitive(old_list[a].0@, name@, old_list[p as int].0@);
                        if b - 1 > p {
                            assert(name_less(old_list[p as int].0@, old_list[b - 1].0@));
                            lemma_name_less_transitive(old_list[a].0@, old_list[p as int].0@, old_list[b - 1].0@);
                        }
                    }
                }
                assert forall|a: int| 0 <= a < nl.len() implies (#[trigger] nl[a]).1.wf() && blocks_cover(
                    self.data_blocks@,
                    nl[a].1,
                ) by {
                    if a < p {
                        assert(nl[a] == old_list[a]);
                    } else if a > p {
                        assert(nl[a] == old_list[a - 1]);
                    }
                }
                assert forall|n: Seq<char>| #[trigger] self.backups_view().contains_key(n) <==> old_view.insert(
                    name@,
                    backup,
                ).contains_key(n) by {
                    if self.backups_view().contains_key(n) && n != name@ {
                        let j = choose|j: int| 0 <= j < nl.len() && (#[trigger] nl[j]).0@ == n;
                        let oj = if j < p { j } else { j - 1 };
                        assert(old_list[oj].0@ == n);
                    }
                    if old_view.contains_key(n) {
                        let j = choose|j: int| 0 <= j < old_list.len() && (#[trigger] old_list[j]).0@ == n;
                        let nj = if j < p { j } else { j + 1 };
                        assert(nl[nj].0@ == n);
                    }
                    if n == name@ {
                        assert(nl[p as int].0@ == n);
                    }
                }
                assert forall|n: Seq<char>| #[trigger] self.backups_view().contains_key(n) implies self.backups_view()[n]
                    == old_view.insert(name@, backup)[n] by {
                    let j = choose|j: int| 0 <= j < nl.len() && (#[trigger] nl[j]).0@ == n;
                    lemma_named_at(nl, j);
                    if j != p {
                        let oj = if j < p { j } else { j - 1 };
                        assert(nl[j] == old_list[oj]);
                        lemma_named_at(old_list, oj);
                    }
                }
                assert(self.backups_view() =~= old_view.insert(name@, backup));
            }
        }
    }

    /// Whether every file of `backup` has a block here or in `pending`;
    /// `MissingBlock` names one that has none.
    fn check_cover(&self, backup: &Backup, pending: &DataBlocks) -> (r: Result<(), IntegrityError>)
        requires
            self.wf(),
            pending.wf(),
            backup.wf(),
        ensures
            r is Ok <==> blocks_cover(self.blocks_view().union_prefer_right(pending@), *backup),
            r matches Err(e) ==> e is MissingBlock,
    {
        let files = backup.iter_files();
        let ghost m = self.blocks_view().union_prefer_right(pending@);
        let mut i: usize = 0;
        while i < files.len()
            invariant
                self.wf(),
                pending.wf(),
                backup.wf(),
                files@ == backup.file_list(),
                m == self.blocks_view().union_prefer_right(pending@),
                i <= files@.len(),
                forall|j: int| 0 <= j < i ==> m.contains_key((#[trigger] files@[j]).hash@),
            decreases files@.len() - i,
        {
            let f = &files[i];
            let known = match self.data_blocks.get(&f.hash) {
                Some(_) => true,
                None => match pending.get(&f.hash) {
                    Some(_) => true,
                    None => false,
                },
            };
            if !known {
                proof {
                    backup.lemma_files_have_inos(i as int);
                }
                return Err(IntegrityError::MissingBlock { ino: f.ino, hash: f.hash });
            }
            i = i + 1;
        }
        proof {
            assert forall|ino: u64| #[trigger] backup.files_view().contains_key(ino) implies m.contains_key(
                backup.files_view()[ino].hash@,
            ) by {
                backup.lemma_file_listed(ino);
                let j = choose|j: int|
                    0 <= j < backup.file_list().len() && #[trigger] backup.file_list()[j]
                        == backup.files_view()[ino];
                assert(m.contains_key(files@[j].hash@));
            }
        }
        Ok(())
    }

    /// Stores `backup` under `name`, replacing the snapshot of that name.  It
    /// is refused with `MissingBlock` where one of its files has no block in
    /// the content table.
    pub fn insert_backup(&mut self, name: &str, backup: Backup) -> (r: Result<(), IntegrityError>)
        requires
            old(self).wf(),
            backup.wf(),
        ensures
            final(self).wf(),
            final(self).blocks_view() == old(self).blocks_view(),
            r is Ok <==> blocks_cover(old(self).blocks_view(), backup),
            r is Ok ==> final(self).backups_view() == old(self).backups_view().insert(name@, backup),
            r matches Err(e) ==> e is MissingBlock && final(self).backups_view() == old(self).backups_view(),
    {
        let pending = DataBlocks::new();
        proof {
            assert(self.blocks_view().union_prefer_right(pending@) =~= self.blocks_view());
        }
        match self.check_cover(&backup, &pending) {
            Ok(()) => {
                self.put_backup(name, backup);
                Ok(())
            },
            Err(e) => Err(e),
        }
    }

    /// Commits a finished scan: the sizes of its queued files join the
    /// content table, then its snapshot is stored under `name`, replacing the
    /// snapshot of that name.  Nothing changes where a digest meets a size
    /// other than the one recorded for it (`SizeMismatch`), or where a file
    /// of the snapshot would have no block (`MissingBlock`).
    pub fn insert_backup_builder(&mut self, name: &str, bb: BackupBuilder) -> (r: Result<
        (),
        IntegrityError,
    >)
        requires
            old(self).wf(),
            bb.wf(),
        ensures
            final(self).wf(),
            match merge_sizes(old(self).blocks_view(), bb.queued()) {
                None => r matches Err(e) && e is SizeMismatch && *final(self) == *old(self),
                Some(m) => if blocks_cover(m, bb.backup()) {
                    &&& r is Ok
                    &&& final(self).blocks_view() == m
                    &&& final(self).backups_view() == old(self).backups_view().insert(
                        name@,
                        bb.backup(),
                    )
                } else {
                    r matches Err(e) && e is MissingBlock && *final(self) == *old(self)
                },
            },
    {
        let ghost old_blocks = self.blocks_view();
        let ghost q = bb.queued();
        let (backup, queued) = bb.finish();
        let mut pending = DataBlocks::new();
        let mut i: usize = 0;
        proof {
            assert(q.take(0) =~= Seq::<NewBackupFile>::empty());
            assert(old_blocks.union_prefer_right(pending@) =~= old_blocks);
        }
        while i < queued.len()
            invariant
                self.wf(),
                *self == *old(self),
                pending.wf(),
                old_blocks == self.blocks_view(),
                queued@ == q,
                q == bb.queued(),
                i <= q.len(),
                pending@.dom().disjoint(old_blocks.dom()),
                merge_sizes(old_blocks, q.take(i as int)) == Some(
                    old_blocks.union_prefer_right(pending@),
                ),
            decreases q.len() - i,
        {
            let f = &queued[i];
            proof {
                assert(q.take(i as int + 1).drop_last() =~= q.take(i as int));
                assert(q.take(i as int + 1).last() == q[i as int]);
            }
            match self.data_blocks.get(&f.hash) {
                Some(b) => {
                    if b.size != f.size {
                        proof {
                            lemma_merge_fails_on(old_blocks, q, i as int + 1);
                        }
                        return Err(
                            IntegrityError::SizeMismatch {
                                hash: f.hash,
                                recorded: b.size,
                                observed: f.size,
                            },
                        );
                    }
                },
                None => {
                    match pending.get(&f.hash) {
                        Some(b) => {
                            if b.size != f.size {
                                proof {
                                    lemma_merge_fails_on(old_blocks, q, i as int + 1);
                                }
                                return Err(
                                    IntegrityError::SizeMismatch {
                                        hash: f.hash,
                                        recorded: b.size,
                                        observed: f.size,
                                    },
                                );
                            }
                        },
                        None => {
                            let ghost before = pending@;
                            pending.insert(DataBlock { hash: f.hash, size: f.size });
                            proof {
                                assert(old_blocks.union_prefer_right(pending@) =~= old_blocks.union_prefer_right(
                                    before,
                                ).insert(f.hash@, f.size));
                            }
                        },
                    }
                },
            }
            i = i + 1;
        }
        proof {
            assert(q.take(q.len() as int) =~= q);
        }
        match self.check_cover(&backup, &pending) {
            Ok(()) => {},
            Err(e) => {
                return Err(e);
            },
        }
        let blocks = pending.as_slice();
        let ghost pl = pending.blocks();
        let mut j: usize = 0;
        while j < blocks.len()
            invariant
                self.wf(),
                pending.wf(),
                blocks@ == pl,
                pl == pending.blocks(),
                j <= pl.len(),
                pending@.dom().disjoint(old_blocks.dom()),
                self.blocks_view() == old_blocks.union_prefer_right(block_map(pl.take(j as int))),
                self.backup_list() == old(self).backup_list(),
            decreases pl.len() - j,
        {
            let b = blocks[j];
            proof {
                pending.lemma_prefix_map(j as int);
                pending.lemma_lookup(j as int);
            }
            self.data_blocks.insert(b);
            proof {
                assert(self.blocks_view() =~= old_blocks.union_prefer_right(block_map(pl.take(j as int + 1))));
            }
            j = j + 1;
        }
        proof {
            assert(pl.take(pl.len() as int) =~= pl);
            assert(self.blocks_view() =~= old_blocks.union_prefer_right(pending@));
            assert forall|k: int| 0 <= k < self.backups@.len() implies blocks_cover(
                self.data_blocks@,
                (#[trigger] self.backups@[k]).1,
            ) by {
                assert(blocks_cover(old_blocks, self.backups@[k].1));
            }
        }
        self.put_backup(name, backup);
        Ok(())
    }
}

/// Whether stored parts make a database: sizes agree, names do not repeat,
/// and every file has a block.
pub open spec fn parts_ok(backups: Seq<(String, Backup)>, blocks: Seq<DataBlock>) -> bool {
    &&& sizes_agree(blocks)
    &&& names_unique(backups)
    &&& forall|i: int|
        0 <= i < backups.len() ==> blocks_cover(block_map(blocks), (#[trigger] backups[i]).1)
}

impl Database {
    /// A database made of stored parts: named snapshots and blocks.
    pub fn from_parts(backups: Vec<(String, Backup)>, blocks: Vec<DataBlock>) -> (r: Result<
        Database,
        IntegrityError,
    >)
        requires
            forall|i: int| 0 <= i < backups@.len() ==> (#[trigger] backups@[i]).1.wf(),
        ensures
            r is Ok <==> parts_ok(backups@, blocks@),
            r matches Ok(d) ==> {
                &&& d.wf()
                &&& d.backups_view() == backup_map(backups@)
                &&& d.blocks_view() == block_map(blocks@)
            },
    {
        let table = match DataBlocks::from_blocks(blocks.as_slice()) {
            Ok(t) => t,
            Err(e) => {
                return Err(e);
            },
        };
        let mut db = Database { backups: Vec::new(), data_blocks: table };
        let ghost all = backups@;
        let mut rest = backups;
        proof {
            assert(all.skip(all.len() as int) =~= Seq::<(String, Backup)>::empty());
            assert(all.take(all.len() as int) =~= all);
            assert(backup_map(Seq::<(String, Backup)>::empty()) =~= Map::<Seq<char>, Backup>::empty());
            assert(db.backups_view() =~= Map::<Seq<char>, Backup>::empty());
        }
        while rest.len() > 0
            invariant
                db.wf(),
                db.blocks_view() == block_map(blocks@),
                sizes_agree(blocks@),
                all == backups@,
                rest@.len() <= all.len(),
                rest@ == all.take(rest@.len() as int),
                forall|k: int| 0 <= k < all.len() ==> (#[trigger] all[k]).1.wf(),
                names_unique(all.skip(rest@.len() as int)),
                forall|j: int|
                    rest@.len() <= j < all.len() ==> blocks_cover(block_map(blocks@), (#[trigger] all[j]).1),
                db.backups_view() == backup_map(all.skip(rest@.len() as int)),
            decreases rest.len(),
        {
            let ghost k = rest@.len() - 1;
            let (name, b) = rest.pop().unwrap();
            proof {
                assert(all.take(k + 1)[k] == all[k]);
                assert(rest@ =~= all.take(k));
            }
            if db.get_backup(name.as_str()).is_some() {
                proof {
                    let t = all.skip(k + 1);
                    let j = choose|j: int| 0 <= j < t.len() && (#[trigger] t[j]).0@ == name@;
                    assert(all[k + 1 + j] == t[j]);
                    assert(all[k].0@ == all[k + 1 + j].0@);
                    assert(!names_unique(all));
                }
                return Err(IntegrityError::DuplicateName { name });
            }
            match db.data_blocks.covers(&b) {
                Ok(()) => {},
                Err(e) => {
                    proof {
                        assert(!blocks_cover(block_map(blocks@), all[k].1));
                    }
                    return Err(e);
                },
            }
            let ghost tail = all.skip(k + 1);
            proof {
                assert forall|j: int| 0 <= j < tail.len() implies (#[trigger] tail[j]).0@ != name@ by {
                    if tail[j].0@ == name@ {
                        assert(backup_map(tail).contains_key(name@));
                    }
                }
                lemma_backup_map_cons(tail, all[k]);
                assert(all.skip(k) =~= seq![all[k]] + tail);
            }
            db.put_backup(name.as_str(), b);
        }
        proof {
            assert(all.skip(0) =~= all);
        }
        Ok(db)
    }

    /// A database that is taken apart into its named snapshots and its blocks
    /// and rebuilt from them holds the same snapshots under the same names,
    /// and the same content table.
    pub proof fn lemma_round_trip(&self)
        requires
            self.wf(),
        ensures
            parts_ok(self.backup_list(), self.block_list()),
            backup_map(self.backup_list()) == self.backups_view(),
            block_map(self.block_list()) == self.blocks_view(),
    {
        let d = self.data_blocks.blocks();
        assert forall|i: int, j: int|
            0 <= i < d.len() && 0 <= j < d.len() && (#[trigger] d[i]).hash@ == (#[trigger] d[j]).hash@
                implies d[i].size == d[j].size by {
            self.data_blocks.lemma_lookup(i);
            self.data_blocks.lemma_lookup(j);
        }
    }
    /// Saving a database as its parts and loading them back, each snapshot
    /// rebuilt from the parts that it lists, gives the same snapshot names,
    /// under each name a snapshot with the same files, directories and
    /// symlinks, and the same content table.  Snapshots are matched by name,
    /// whatever order the document keeps them in.
    pub proof fn lemma_load_after_save(&self, loaded: &Database)
        requires
            self.wf(),
            loaded.wf(),
            loaded.backups_view().dom() == self.backups_view().dom(),
            forall|n: Seq<char>| #[trigger]
                self.backups_view().contains_key(n) ==> {
                    let b = self.backups_view()[n];
                    let c = loaded.backups_view()[n];
                    &&& c.files_view() == crate::backup::files_by_ino(b.file_list())
                    &&& c.dir_list() == b.dir_list()
                    &&& c.link_list() == b.link_list()
                },
            loaded.blocks_view() == block_map(self.block_list()),
        ensures
            forall|n: Seq<char>| #[trigger]
                self.backups_view().contains_key(n) ==> loaded.backups_view()[n].same_content(
                    &self.backups_view()[n],
                ),
            loaded.blocks_view() == self.blocks_view(),
    {
        let s = self.backups@;
        assert forall|n: Seq<char>| #[trigger] self.backups_view().contains_key(n) implies loaded.backups_view()[n].same_content(
            &self.backups_view()[n],
        ) by {
            let i = choose|i: int| 0 <= i < s.len() && (#[trigger] s[i]).0@ == n;
            lemma_named_at(s, i);
            s[i].1.lemma_parts_round_trip(&loaded.backups_view()[n]);
        }
        self.lemma_round_trip();
    }
}

/// Putting a snapshot of a new name in front of a list without repeated
/// names.
proof fn lemma_backup_map_cons(s: Seq<(String, Backup)>, x: (String, Backup))
    requires
        names_unique(s),
        forall|j: int| 0 <= j < s.len() ==> (#[trigger] s[j]).0@ != x.0@,
    ensures
        names_unique(seq![x] + s),
        backup_map(seq![x] + s) == backup_map(s).insert(x.0@, x.1),
{
    let t = seq![x] + s;
    assert forall|a: int| 0 < a < t.len() implies (#[trigger] t[a]) == s[a - 1] by {}
    assert forall|a: int, b: int|
        0 <= a < t.len() && 0 <= b < t.len() && a != b implies (#[trigger] t[a]).0@ != (#[trigger] t[b]).0@ by {
        if a > 0 && b > 0 {
            assert(s[a - 1].0@ != s[b - 1].0@);
        } else if a == 0 {
            assert(s[b - 1].0@ != x.0@);
        } else {
            assert(s[a - 1].0@ != x.0@);
        }
    }
    assert forall|n: Seq<char>| #[trigger] backup_map(t).contains_key(n) <==> backup_map(s).insert(x.0@, x.1).contains_key(n) by {
        if backup_map(t).contains_key(n) && n != x.0@ {
            let j = choose|j: int| 0 <= j < t.len() && (#[trigger] t[j]).0@ == n;
            assert(j > 0);
            assert(s[j - 1].0@ == n);
        }
        if backup_map(s).contains_key(n) {
            let j = choose|j: int| 0 <= j < s.len() && (#[trigger] s[j]).0@ == n;
            assert(t[j + 1].0@ == n);
        }
        if n == x.0@ {
            assert(t[0].0@ == n);
        }
    }
    assert forall|n: Seq<char>| #[trigger] backup_map(t).contains_key(n) implies backup_map(t)[n] == backup_map(s).insert(x.0@, x.1)[n] by {
        let j = choose|j: int| 0 <= j < t.len() && (#[trigger] t[j]).0@ == n;
        lemma_named_at(t, j);
        if j > 0 {
            lemma_named_at(s, j - 1);
        }
    }
    assert(backup_map(t) =~= backup_map(s).insert(x.0@, x.1));
}

/// In a list without repeated names, the snapshot of a listed name is the
/// listed one.
proof fn lemma_named_at(s: Seq<(String, Backup)>, i: int)
    requires
        names_unique(s),
        0 <= i < s.len(),
    ensures
        backup_map(s).contains_key(s[i].0@),
        backup_map(s)[s[i].0@] == s[i].1,
{
    let n = s[i].0@;
    let j = choose|j: int| 0 <= j < s.len() && (#[trigger] s[j]).0@ == n;
    if i != j {
        assert(s[i].0@ != s[j].0@);
    }
}

/// A snapshot joined with the content table of its vault, read-only.
pub struct BackupView<'a> {
    name: &'a str,
    backup: &'a Backup,
    data_blocks: &'a DataBlocks,
}

/// One file of a snapshot joined with its block.
pub struct BackupFileView<'a> {
    ino: u64,
    meta: &'a BackupFile,
    data_block: DataBlock,
}

impl<'a> BackupView<'a> {
    pub closed spec fn wf(&self) -> bool {
        &&& self.backup.wf()
        &&& self.data_blocks.wf()
        &&& blocks_cover(self.data_blocks@, *self.backup)
    }

    pub closed spec fn spec_backup(&self) -> &'a Backup {
        self.backup
    }

    pub closed spec fn blocks_view(&self) -> Map<Seq<u8>, u64> {
        self.data_blocks@
    }

    pub closed spec fn spec_name(&self) -> &'a str {
        self.name
    }

    pub fn name(&self) -> (r: &'a str)
        ensures
            r == self.spec_name(),
    {
        self.name
    }

    /// The snapshot itself.
    pub fn backup(&self) -> (r: &'a Backup)
        ensures
            r == self.spec_backup(),
    {
        self.backup
    }

    /// The file of inode `ino`, with the block of its content.
    pub fn get_file(&self, ino: u64) -> (r: Option<BackupFileView<'a>>)
        requires
            self.wf(),
        ensures
            match r {
                Some(f) => {
                    &&& self.spec_backup().files_view().contains_key(ino)
                    &&& *f.meta() == self.spec_backup().files_view()[ino]
                    &&& f.spec_ino() == ino
                    &&& f.block().hash@ == f.meta().hash@
                    &&& self.blocks_view()[f.meta().hash@] == f.block().size
                },
                None => !self.spec_backup().files_view().contains_key(ino),
            },
    {
        match self.backup.get_file(ino) {
            Some(meta) => {
                match self.data_blocks.get(&meta.hash) {
                    Some(block) => Some(BackupFileView { ino, meta, data_block: block }),
                    None => {
                        proof {
                            assert(self.backup.files_view().contains_key(ino));
                        }
                        None
                    },
                }
            },
            None => None,
        }
    }
}

impl<'a> BackupFileView<'a> {
    pub closed spec fn spec_ino(&self) -> u64 {
        self.ino
    }

    pub closed spec fn meta(&self) -> &'a BackupFile {
        self.meta
    }

    pub closed spec fn block(&self) -> DataBlock {
        self.data_block
    }

    pub fn ino(&self) -> (r: u64)
        ensures
            r == self.spec_ino(),
    {
        self.ino
    }

    pub fn path(&self) -> (r: &'a str)
        ensures
            r@ == self.meta().path@,
    {
        self.meta.path.as_str()
    }

    pub fn hash(&self) -> (r: crate::util::Hash)
        ensures
            r == self.meta().hash,
    {
        self.meta.hash
    }

    /// The modification time of the file when it was hashed.
    pub fn mtime(&self) -> (r: crate::util::MTime)
        ensures
            r == self.meta().mtime,
    {
        self.meta.mtime
    }

    /// The size of the file's content.
    pub fn size(&self) -> (r: u64)
        ensures
            r == self.block().size,
    {
        self.data_block.size
    }
}

} // verus!
