use vstd::prelude::*;
use vstd::string::*;

use crate::util::{hex_text, HASH_LEN};

verus! {

/// The content store of a vault: one file per distinct digest, under
/// `<data dir>/<first two hex digits>/<all 64 hex digits>`.
pub struct Storage {
    data_dir: String,
}

/// One file-system step of storing a content.
pub enum StoreStep {
    /// Create the shard directory `path`.
    CreateDir { path: String },
    /// Copy the bytes of file `from` to a new file `to`.
    Copy { from: String, to: String },
    /// Move file `from` to `to` (atomic on one file system).  A file already
    /// at `to` would be replaced; the plan renames only onto a path where
    /// no stored file was.
    Rename { from: String, to: String },
}

/// The shard directory of a digest below `data_dir`.
pub open spec fn shard_path(data_dir: Seq<char>, hash: Seq<u8>) -> Seq<char> {
    data_dir + seq!['/'] + hex_text(hash).subrange(0, 2)
}

/// The stored file of a digest below `data_dir`.
pub open spec fn content_path(data_dir: Seq<char>, hash: Seq<u8>) -> Seq<char> {
    shard_path(data_dir, hash) + seq!['/'] + hex_text(hash)
}

/// Where a content is written before it is renamed into place.
pub open spec fn temp_path(data_dir: Seq<char>, hash: Seq<u8>) -> Seq<char> {
    content_path(data_dir, hash) + seq!['.', 't', 'm', 'p']
}

/// A step of storing a content, by the paths that it names.
pub enum FsStep {
    CreateDir(Seq<char>),
    Copy(Seq<char>, Seq<char>),
    Rename(Seq<char>, Seq<char>),
}

impl View for StoreStep {
    type V = FsStep;

    open spec fn view(&self) -> FsStep {
        match self {
            StoreStep::CreateDir { path } => FsStep::CreateDir(path@),
            StoreStep::Copy { from, to } => FsStep::Copy(from@, to@),
            StoreStep::Rename { from, to } => FsStep::Rename(from@, to@),
        }
    }
}

/// The steps that store the file at `source` under `hash` below `data_dir`,
/// given whether the stored file and its shard directory exist.
pub open spec fn store_plan(
    data_dir: Seq<char>,
    source: Seq<char>,
    hash: Seq<u8>,
    dest_exists: bool,
    shard_exists: bool,
) -> Seq<FsStep> {
    if dest_exists {
        Seq::empty()
    } else {
        let write = seq![
            FsStep::Copy(source, temp_path(data_dir, hash)),
            FsStep::Rename(temp_path(data_dir, hash), content_path(data_dir, hash)),
        ];
        if shard_exists {
            write
        } else {
            seq![FsStep::CreateDir(shard_path(data_dir, hash))] + write
        }
    }
}

/// The files present after the steps `steps`, from the files `files`.
pub open spec fn apply_steps(files: Set<Seq<char>>, steps: Seq<FsStep>) -> Set<Seq<char>>
    decreases steps.len(),
{
    if steps.len() == 0 {
        files
    } else {
        let before = apply_steps(files, steps.drop_last());
        match steps.last() {
            FsStep::CreateDir(_) => before,
            FsStep::Copy(_, to) => before.insert(to),
            FsStep::Rename(from, to) => before.remove(from).insert(to),
        }
    }
}

/// Whether the steps copy any bytes.
pub open spec fn copies(steps: Seq<FsStep>) -> bool {
    exists|i: int| 0 <= i < steps.len() && #[trigger] steps[i] is Copy
}

impl Storage {
    pub closed spec fn data_dir(&self) -> Seq<char> {
        self.data_dir@
    }

    /// The store of the vault at `vault_dir`: its `data` directory.
    pub fn new(vault_dir: &str) -> (r: Storage)
        ensures
            r.data_dir() == vault_dir@ + seq!['/', 'd', 'a', 't', 'a'],
    {
        let d = vault_dir.to_owned().concat("/data");
        proof {
            reveal_strlit("/data");
        }
        Storage { data_dir: d }
    }

    /// The path of the stored file of `hash`.
    pub fn path_of(&self, hash: &crate::util::Hash) -> (r: String)
        ensures
            r@ == content_path(self.data_dir(), hash@),
    {
        let hex = hash.to_hex();
        let head = hex.as_str().substring_char(0, 2).to_owned();
        let mut p = self.data_dir.clone();
        p.append("/");
        p.append(head.as_str());
        p.append("/");
        p.append(hex.as_str());
        proof {
            reveal_strlit("/");
            assert(p@ =~= content_path(self.data_dir(), hash@));
        }
        p
    }

    /// The path of the shard directory of `hash`.
    pub fn shard_of(&self, hash: &crate::util::Hash) -> (r: String)
        ensures
            r@ == shard_path(self.data_dir(), hash@),
    {
        let hex = hash.to_hex();
        let mut p = self.data_dir.clone();
        p.append("/");
        p.append(hex.as_str().substring_char(0, 2));
        proof {
            reveal_strlit("/");
            assert(p@ =~= shard_path(self.data_dir(), hash@));
        }
        p
    }

    /// The steps that store the file at `source` under `hash`, given whether
    /// the stored file and its shard directory exist now.  Where the stored
    /// file exists there is nothing to do: a content is stored once.  Else
    /// the bytes are copied to a temporary file beside it, which is then
    /// renamed into place, so that a failed copy never leaves a partial file
    /// under the digest's name.
    pub fn insert_file(
        &self,
        source: &str,
        hash: &crate::util::Hash,
        dest_exists: bool,
        shard_exists: bool,
    ) -> (r: Vec<StoreStep>)
        ensures
            r@.map_values(|s: StoreStep| s@) == store_plan(
                self.data_dir(),
                source@,
                hash@,
                dest_exists,
                shard_exists,
            ),
    {
        let mut steps: Vec<StoreStep> = Vec::new();
        if dest_exists {
            proof {
                assert(steps@.map_values(|s: StoreStep| s@) =~= Seq::<FsStep>::empty());
            }
            return steps;
        }
        if !shard_exists {
            steps.push(StoreStep::CreateDir { path: self.shard_of(hash) });
        }
        let dest = self.path_of(hash);
        let tmp = dest.clone().concat(".tmp");
        let tmp2 = tmp.clone();
        steps.push(StoreStep::Copy { from: source.to_owned(), to: tmp });
        steps.push(StoreStep::Rename { from: tmp2, to: dest });
        proof {
            reveal_strlit(".tmp");
            assert(".tmp"@ =~= seq!['.', 't', 'm', 'p']);
            assert(tmp2@ == temp_path(self.data_dir(), hash@));
            let v = steps@.map_values(|s: StoreStep| s@);
            let n = steps@.len() as int;
            assert(v[n - 1] == FsStep::Rename(temp_path(self.data_dir(), hash@), content_path(self.data_dir(), hash@)));
            assert(v[n - 2] == FsStep::Copy(source@, temp_path(self.data_dir(), hash@)));
            if !shard_exists {
                assert(v[0] == FsStep::CreateDir(shard_path(self.data_dir(), hash@)));
            }
            assert(steps@.map_values(|s: StoreStep| s@) =~= store_plan(
                self.data_dir(),
                source@,
                hash@,
                dest_exists,
                shard_exists,
            ));
        }
        steps
    }
}

/// Storing one content twice leaves one stored file under its digest, and
/// the second time copies nothing and changes nothing.
pub proof fn lemma_insert_idempotent(
    data_dir: Seq<char>,
    source: Seq<char>,
    hash: Seq<u8>,
    files: Set<Seq<char>>,
    shard_exists: bool,
)
    ensures
        ({
            let dest = content_path(data_dir, hash);
            let first = apply_steps(
                files,
                store_plan(data_dir, source, hash, files.contains(dest), shard_exists),
            );
            let second_plan = store_plan(data_dir, source, hash, first.contains(dest), true);
            &&& first.contains(dest)
            &&& !copies(second_plan)
            &&& apply_steps(first, second_plan) == first
        }),
{
    let dest = content_path(data_dir, hash);
    let p = store_plan(data_dir, source, hash, files.contains(dest), shard_exists);
    if !files.contains(dest) {
        assert(p.last() == FsStep::Rename(temp_path(data_dir, hash), dest));
        assert(apply_steps(files, p).contains(dest));
    }
    let first = apply_steps(files, p);
    let q = store_plan(data_dir, source, hash, first.contains(dest), true);
    assert(q.len() == 0);
}

} // verus!
