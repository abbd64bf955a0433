use std::collections::HashMap;
use vstd::prelude::*;

use crate::paths::{bucket_of_path, path_bucket, PathIndex};
use crate::util::MTime;

verus! {

/// One file of a snapshot: its inode on the source file system, its path
/// relative to the snapshot root, its content digest, and the modification
/// time seen when it was hashed.
pub struct BackupFile {
    pub ino: u64,
    pub path: String,
    pub hash: crate::util::Hash,
    pub mtime: MTime,
}

impl BackupFile {
    pub fn duplicate(&self) -> (r: BackupFile)
        ensures
            r == *self,
    {
        BackupFile { ino: self.ino, path: self.path.clone(), hash: self.hash, mtime: self.mtime }
    }
}

/// The files of `s` by inode, later records replacing earlier ones with the
/// same inode.
pub open spec fn files_by_ino(s: Seq<BackupFile>) -> Map<u64, BackupFile>
    decreases s.len(),
{
    if s.len() == 0 {
        Map::empty()
    } else {
        files_by_ino(s.drop_last()).insert(s.last().ino, s.last())
    }
}

/// The set of paths that `s` lists.
pub open spec fn path_set(s: Seq<String>) -> Set<Seq<char>> {
    Set::new(|p: Seq<char>| exists|i: int| 0 <= i < s.len() && (#[trigger] s[i])@ == p)
}

/// The paths of a list of directories.
pub open spec fn dir_keys(s: Seq<String>) -> Seq<Seq<char>> {
    Seq::new(s.len(), |i: int| s[i]@)
}

/// The link paths of a list of symlinks.
pub open spec fn link_keys(s: Seq<(String, String)>) -> Seq<Seq<char>> {
    Seq::new(s.len(), |i: int| s[i].0@)
}

/// Whether no path repeats in `k`.
pub open spec fn unique_paths(k: Seq<Seq<char>>) -> bool {
    forall|i: int, j: int| 0 <= i < k.len() && 0 <= j < k.len() && i != j ==> k[i] != k[j]
}

/// Link path to target over a list of symlinks (with distinct link paths,
/// each path's one target).
pub open spec fn link_map(s: Seq<(String, String)>) -> Map<Seq<char>, Seq<char>> {
    Map::new(
        |k: Seq<char>| exists|i: int| 0 <= i < s.len() && (#[trigger] s[i]).0@ == k,
        |k: Seq<char>| s[choose|i: int| 0 <= i < s.len() && (#[trigger] s[i]).0@ == k].1@,
    )
}

/// Adding a path to a list adds it to the set of its paths.
pub proof fn lemma_path_set_push(s: Seq<String>, d: String)
    ensures
        path_set(s.push(d)) == path_set(s).insert(d@),
{
    let t = s.push(d);
    assert forall|q: Seq<char>| #[trigger] path_set(t).contains(q) <==> path_set(s).insert(d@).contains(q) by {
        if path_set(t).contains(q) && q != d@ {
            let i = choose|i: int| 0 <= i < t.len() && (#[trigger] t[i])@ == q;
            assert(s[i] == t[i]);
        }
        if path_set(s).contains(q) {
            let i = choose|i: int| 0 <= i < s.len() && (#[trigger] s[i])@ == q;
            assert(t[i] == s[i]);
        }
        if q == d@ {
            assert(t[s.len() as int] == d);
        }
    }
    assert(path_set(t) =~= path_set(s).insert(d@));
}

/// The file table of a snapshot: records in an arena, indexed by inode.
pub struct BackupFiles {
    data: Vec<BackupFile>,
    index: HashMap<u64, usize>,
}

impl BackupFiles {
    pub closed spec fn wf(&self) -> bool {
        &&& forall|k: u64| #[trigger]
            self.index@.contains_key(k) ==> self.index@[k] < self.data@.len()
                && self.data@[self.index@[k] as int].ino == k
        &&& forall|i: int|
            0 <= i < self.data@.len() ==> #[trigger] self.index@.contains_key(self.data@[i].ino)
                && self.index@[self.data@[i].ino] == i
    }

    /// The records by inode.
    pub closed spec fn view(&self) -> Map<u64, BackupFile> {
        Map::new(
            |k: u64| self.index@.contains_key(k),
            |k: u64| self.data@[self.index@[k] as int],
        )
    }

    /// The records in arena order.
    pub closed spec fn records(&self) -> Seq<BackupFile> {
        self.data@
    }

    pub fn new() -> (r: BackupFiles)
        ensures
            r.wf(),
            r@ == Map::<u64, BackupFile>::empty(),
            r.records() == Seq::<BackupFile>::empty(),
    {
        let r = BackupFiles { data: Vec::new(), index: HashMap::new() };
        assert(r@ =~= Map::<u64, BackupFile>::empty());
        r
    }

    /// Records `f` under its inode, replacing the record held there.
    pub fn insert(&mut self, f: BackupFile)
        requires
            old(self).wf(),
        ensures
            final(self).wf(),
            final(self)@ == old(self)@.insert(f.ino, f),
    {
        let ghost old_view = self@;
        let k = f.ino;
        let found: Option<usize> = match self.index.get(&k) {
            Some(i) => Some(*i),
            None => None,
        };
        match found {
            Some(i) => {
                let ghost old_data = self.data@;
                self.data.set(i, f);
                proof {
                    assert forall|j: int| 0 <= j < self.data@.len() implies #[trigger] self.index@.contains_key(
                        self.data@[j].ino,
                    ) && self.index@[self.data@[j].ino] == j by {
                        if j != i {
                            assert(self.data@[j] == old_data[j]);
                        }
                    }
                    assert forall|x: u64| #[trigger] self.index@.contains_key(x) implies self.index@[x]
                        < self.data@.len() && self.data@[self.index@[x] as int].ino == x by {
                        if self.index@[x] != i {
                            assert(self.data@[self.index@[x] as int] == old_data[self.index@[x] as int]);
                        }
                    }
                    assert forall|x: u64| #[trigger] self.index@.contains_key(x) && x != k implies self.index@[x] != i by {
                        assert(old_data[self.index@[x] as int].ino == x);
                        assert(old_data[i as int].ino == k);
                    }
                    assert(self@ =~= old_view.insert(k, f));
                }
            },
            None => {
                let ghost old_data = self.data@;
                let ghost old_index = self.index@;
                let n = self.data.len();
                self.data.push(f);
                self.index.insert(k, n);
                proof {
                    assert forall|j: int| 0 <= j < self.data@.len() implies #[trigger] self.index@.contains_key(
                        self.data@[j].ino,
                    ) && self.index@[self.data@[j].ino] == j by {
                        if j < n {
                            assert(self.data@[j] == old_data[j]);
                            assert(old_index.contains_key(old_data[j].ino));
                        }
                    }
                    assert forall|x: u64| #[trigger] self.index@.contains_key(x) implies self.index@[x]
                        < self.data@.len() && self.data@[self.index@[x] as int].ino == x by {
                        if x != k {
                            assert(old_index.contains_key(x));
                            assert(self.data@[self.index@[x] as int] == old_data[old_index[x] as int]);
                        }
                    }
                    assert forall|x: u64| #[trigger] self.index@.contains_key(x) && x != k implies
                        self.data@[self.index@[x] as int] == old_data[old_index[x] as int] by {
                        assert(old_index.contains_key(x));
                    }
                    assert(self@ =~= old_view.insert(k, f));
                }
            },
        }
    }

    /// The record of inode `ino`.
    pub fn get(&self, ino: u64) -> (r: Option<&BackupFile>)
        requires
            self.wf(),
        ensures
            match r {
                Some(f) => self@.contains_key(ino) && self@[ino] == *f,
                None => !self@.contains_key(ino),
            },
    {
        match self.index.get(&ino) {
            Some(i) => Some(&self.data[*i]),
            None => None,
        }
    }

    /// The records, each inode once, in the order in which they were first
    /// inserted.
    pub fn as_slice(&self) -> (r: &[BackupFile])
        requires
            self.wf(),
        ensures
            r@ == self.records(),
    {
        self.data.as_slice()
    }

    /// How many files the table holds.
    pub fn len(&self) -> (r: usize)
        requires
            self.wf(),
        ensures
            r == self.records().len(),
    {
        self.data.len()
    }

    /// The records in arena order make up the table: inserting them one after
    /// the other gives the table back.
    pub proof fn lemma_records_rebuild(&self)
        requires
            self.wf(),
        ensures
            files_by_ino(self.records()) == self@,
    {
        let d = self.data@;
        assert forall|n: int| 0 <= n <= d.len() implies #[trigger] files_by_ino(d.take(n)) =~= Map::new(
            |k: u64| self.index@.contains_key(k) && self.index@[k] < n,
            |k: u64| d[self.index@[k] as int],
        ) by {
            self.lemma_prefix(n);
        }
        assert(d.take(d.len() as int) =~= d);
        assert(files_by_ino(d) =~= self@);
    }

    proof fn lemma_prefix(&self, n: int)
        requires
            self.wf(),
            0 <= n <= self.data@.len(),
        ensures
            files_by_ino(self.data@.take(n)) =~= Map::new(
                |k: u64| self.index@.contains_key(k) && self.index@[k] < n,
                |k: u64| self.data@[self.index@[k] as int],
            ),
        decreases n,
    {
        let d = self.data@;
        if n > 0 {
            self.lemma_prefix(n - 1);
            assert(d.take(n).drop_last() =~= d.take(n - 1));
            assert(d.take(n).last() == d[n - 1]);
            assert(self.index@.contains_key(d[n - 1].ino));
        }
    }
}

/// One snapshot of a tree: its files by inode, its directories, and its
/// symlinks with their targets, stored as they were read.
pub struct Backup {
    files: BackupFiles,
    directories: Vec<String>,
    dir_index: PathIndex,
    symlinks: Vec<(String, String)>,
    link_index: PathIndex,
}

impl Backup {
    pub closed spec fn wf(&self) -> bool {
        &&& self.files.wf()
        &&& unique_paths(dir_keys(self.directories@))
        &&& self.dir_index.indexes(dir_keys(self.directories@))
        &&& unique_paths(link_keys(self.symlinks@))
        &&& self.link_index.indexes(link_keys(self.symlinks@))
    }

    /// The files by inode.
    pub closed spec fn files_view(&self) -> Map<u64, BackupFile> {
        self.files@
    }

    /// The file records as stored, each inode once.
    pub closed spec fn file_list(&self) -> Seq<BackupFile> {
        self.files.records()
    }

    /// The directory paths as stored.
    pub closed spec fn dir_list(&self) -> Seq<String> {
        self.directories@
    }

    /// The symlinks as stored: (link path, target).
    pub closed spec fn link_list(&self) -> Seq<(String, String)> {
        self.symlinks@
    }

    /// The set of directory paths.
    pub open spec fn dirs(&self) -> Set<Seq<char>> {
        path_set(self.dir_list())
    }

    /// Link path to target.
    pub open spec fn links(&self) -> Map<Seq<char>, Seq<char>> {
        link_map(self.link_list())
    }

    /// Whether two snapshots hold the same files, directories and symlinks.
    pub open spec fn same_content(&self, o: &Backup) -> bool {
        &&& self.files_view() == o.files_view()
        &&& self.dirs() == o.dirs()
        &&& self.links() == o.links()
    }

    /// An empty snapshot.
    pub fn new() -> (r: Backup)
        ensures
            r.wf(),
            r.files_view() == Map::<u64, BackupFile>::empty(),
            r.file_list() == Seq::<BackupFile>::empty(),
            r.dir_list() == Seq::<String>::empty(),
            r.link_list() == Seq::<(String, String)>::empty(),
    {
        let r = Backup {
            files: BackupFiles::new(),
            directories: Vec::new(),
            dir_index: PathIndex::new(),
            symlinks: Vec::new(),
            link_index: PathIndex::new(),
        };
        assert(dir_keys(r.directories@) =~= Seq::<Seq<char>>::empty());
        assert(link_keys(r.symlinks@) =~= Seq::<Seq<char>>::empty());
        r
    }

    /// Position of the directory `p`.
    fn find_dir(&self, p: &String) -> (r: Option<usize>)
        requires
            self.wf(),
        ensures
            match r {
                Some(i) => i < self.directories@.len() && self.directories@[i as int]@ == p@,
                None => !path_set(self.directories@).contains(p@),
            },
    {
        let b = bucket_of_path(p.as_str());
        let cands = self.dir_index.candidates_of(b);
        let len = self.directories.len();
        let ghost keys = dir_keys(self.directories@);
        proof {
            self.dir_index.lemma_candidates(keys, b);
        }
        let mut k: usize = 0;
        while k < cands.len()
            invariant
                cands@ == self.dir_index.candidates(b),
                len == self.directories@.len(),
                b == path_bucket(p@),
                keys == dir_keys(self.directories@),
                k <= cands@.len(),
                forall|j: int| 0 <= j < cands@.len() ==> (#[trigger] cands@[j]) < keys.len()
                    && path_bucket(keys[cands@[j] as int]) == b,
                forall|j: int| 0 <= j < k ==> keys[(#[trigger] cands@[j]) as int] != p@,
            decreases cands@.len() - k,
        {
            let x = cands[k];
            if self.directories[x] == *p {
                return Some(x);
            }
            k = k + 1;
        }
        proof {
            if path_set(self.directories@).contains(p@) {
                let i = choose|i: int| 0 <= i < self.directories@.len() && (#[trigger] self.directories@[i])@ == p@;
                assert(keys[i] == p@);
                assert(self.dir_index.candidates(b).contains(i as usize));
                let j = choose|j: int| 0 <= j < cands@.len() && cands@[j] == i as usize;
                assert(keys[cands@[j] as int] != p@);
            }
        }
        None
    }

    /// Position of the symlink at `p`.
    fn find_link(&self, p: &String) -> (r: Option<usize>)
        requires
            self.wf(),
        ensures
            match r {
                Some(i) => i < self.symlinks@.len() && self.symlinks@[i as int].0@ == p@,
                None => !link_keys(self.symlinks@).contains(p@),
            },
    {
        let b = bucket_of_path(p.as_str());
        let cands = self.link_index.candidates_of(b);
        let len = self.symlinks.len();
        let ghost keys = link_keys(self.symlinks@);
        proof {
            self.link_index.lemma_candidates(keys, b);
        }
        let mut k: usize = 0;
        while k < cands.len()
            invariant
                cands@ == self.link_index.candidates(b),
                len == self.symlinks@.len(),
                b == path_bucket(p@),
                keys == link_keys(self.symlinks@),
                k <= cands@.len(),
                forall|j: int| 0 <= j < cands@.len() ==> (#[trigger] cands@[j]) < keys.len()
                    && path_bucket(keys[cands@[j] as int]) == b,
                forall|j: int| 0 <= j < k ==> keys[(#[trigger] cands@[j]) as int] != p@,
            decreases cands@.len() - k,
        {
            let x = cands[k];
            if self.symlinks[x].0 == *p {
                return Some(x);
            }
            k = k + 1;
        }
        proof {
            if keys.contains(p@) {
                let i = choose|i: int| 0 <= i < keys.len() && keys[i] == p@;
                assert(self.link_index.candidates(b).contains(i as usize));
                let j = choose|j: int| 0 <= j < cands@.len() && cands@[j] == i as usize;
                assert(keys[cands@[j] as int] != p@);
            }
        }
        None
    }

    /// Records the directory `path`; a path already recorded is kept once.
    pub fn insert_directory(&mut self, path: String)
        requires
            old(self).wf(),
        ensures
            final(self).wf(),
            final(self).dirs() == old(self).dirs().insert(path@),
            final(self).dir_list() == if old(self).dirs().contains(path@) {
                old(self).dir_list()
            } else {
                old(self).dir_list().push(path)
            },
            final(self).files_view() == old(self).files_view(),
            final(self).file_list() == old(self).file_list(),
            final(self).link_list() == old(self).link_list(),
    {
        match self.find_dir(&path) {
            Some(i) => {
                proof {
                    assert(path_set(self.directories@).contains(path@));
                    assert(path_set(self.directories@) =~= path_set(self.directories@).insert(path@));
                }
            },
            None => {
                let ghost old_dirs = self.directories@;
                let b = bucket_of_path(path.as_str());
                let n = self.directories.len();
                proof {
                    assert(n == dir_keys(old_dirs).len());
                }
                self.dir_index.add(Ghost(dir_keys(old_dirs)), Ghost(path@), b, n);
                self.directories.push(path);
                proof {
                    let nd = self.directories@;
                    assert(dir_keys(nd) =~= dir_keys(old_dirs).push(path@));
                    assert forall|i: int, j: int|
                        0 <= i < dir_keys(nd).len() && 0 <= j < dir_keys(nd).len() && i != j
                            implies dir_keys(nd)[i] != dir_keys(nd)[j] by {
                        if i == n as int {
                            assert(old_dirs[j]@ == dir_keys(nd)[j]);
                        } else if j == n as int {
                            assert(old_dirs[i]@ == dir_keys(nd)[i]);
                        } else {
                            assert(dir_keys(old_dirs)[i] != dir_keys(old_dirs)[j]);
                        }
                    }
                    assert forall|q: Seq<char>| #[trigger] path_set(nd).contains(q) <==> path_set(
                        old_dirs,
                    ).insert(path@).contains(q) by {
                        if path_set(nd).contains(q) && q != path@ {
                            let i = choose|i: int| 0 <= i < nd.len() && (#[trigger] nd[i])@ == q;
                            assert(old_dirs[i] == nd[i]);
                        }
                        if path_set(old_dirs).contains(q) {
                            let i = choose|i: int| 0 <= i < old_dirs.len() && (#[trigger] old_dirs[i])@ == q;
                            assert(nd[i] == old_dirs[i]);
                        }
                        if q == path@ {
                            assert(nd[n as int] == path);
                        }
                    }
                    assert(path_set(nd) =~= path_set(old_dirs).insert(path@));
                }
            },
        }
    }

    /// Records the symlink at `path`, pointing at `target`, replacing any
    /// earlier target of `path`.
    pub fn insert_symlink(&mut self, path: String, target: String)
        requires
            old(self).wf(),
        ensures
            final(self).wf(),
            final(self).links() == old(self).links().insert(path@, target@),
            link_keys(final(self).link_list()) == if link_keys(old(self).link_list()).contains(path@) {
                link_keys(old(self).link_list())
            } else {
                link_keys(old(self).link_list()).push(path@)
            },
            !link_keys(old(self).link_list()).contains(path@) ==> final(self).link_list() == old(self).link_list().push((path, target)),
            final(self).files_view() == old(self).files_view(),
            final(self).file_list() == old(self).file_list(),
            final(self).dir_list() == old(self).dir_list(),
    {
        let ghost old_links = self.symlinks@;
        let ghost ok = link_keys(old_links);
        match self.find_link(&path) {
            Some(i) => {
                let ghost p = path@;
                let ghost t = target@;
                self.symlinks.set(i, (path, target));
                proof {
                    let nl = self.symlinks@;
                    assert(link_keys(nl) =~= ok);
                    assert(ok.contains(p)) by {
                        assert(ok[i as int] == p);
                    }
                    assert forall|q: Seq<char>| #[trigger] link_map(nl).contains_key(q) <==> link_map(
                        old_links,
                    ).insert(p, t).contains_key(q) by {
                        if link_map(nl).contains_key(q) {
                            let a = choose|a: int| 0 <= a < nl.len() && (#[trigger] nl[a]).0@ == q;
                            assert(link_keys(nl)[a] == q);
                        }
                        if link_map(old_links).contains_key(q) {
                            let a = choose|a: int| 0 <= a < old_links.len() && (#[trigger] old_links[a]).0@ == q;
                            assert(ok[a] == q);
                            assert(link_keys(nl)[a] == q);
                        }
                        if q == p {
                            assert(nl[i as int].0@ == p);
                        }
                    }
                    assert forall|q: Seq<char>| #[trigger] link_map(nl).contains_key(q) implies link_map(nl)[q]
                        == link_map(old_links).insert(p, t)[q] by {
                        let a = choose|a: int| 0 <= a < nl.len() && (#[trigger] nl[a]).0@ == q;
                        assert(link_keys(nl)[a] == q);
                        if q == p {
                            assert(link_keys(nl)[i as int] == p);
                            assert(a == i);
                        } else {
                            assert(a != i);
                            assert(nl[a] == old_links[a]);
                            let c = choose|c: int| 0 <= c < old_links.len() && (#[trigger] old_links[c]).0@ == q;
                            assert(ok[c] == q && ok[a] == q);
                            assert(c == a);
                        }
                    }
                    assert(link_map(nl) =~= link_map(old_links).insert(p, t));
                }
            },
            None => {
                let b = bucket_of_path(path.as_str());
                let n = self.symlinks.len();
                let ghost p = path@;
                let ghost t = target@;
                self.link_index.add(Ghost(ok), Ghost(p), b, n);
                self.symlinks.push((path, target));
                proof {
                    let nl = self.symlinks@;
                    assert(link_keys(nl) =~= ok.push(p));
                    assert forall|i: int, j: int|
                        0 <= i < link_keys(nl).len() && 0 <= j < link_keys(nl).len() && i != j
                            implies link_keys(nl)[i] != link_keys(nl)[j] by {
                        if i == n as int {
                            assert(ok[j] == link_keys(nl)[j]);
                        } else if j == n as int {
                            assert(ok[i] == link_keys(nl)[i]);
                        } else {
                            assert(ok[i] != ok[j]);
                        }
                    }
                    assert forall|q: Seq<char>| #[trigger] link_map(nl).contains_key(q) <==> link_map(
                        old_links,
                    ).insert(p, t).contains_key(q) by {
                        if link_map(nl).contains_key(q) && q != p {
                            let a = choose|a: int| 0 <= a < nl.len() && (#[trigger] nl[a]).0@ == q;
                            assert(nl[a] == old_links[a]);
                        }
                        if link_map(old_links).contains_key(q) {
                            let a = choose|a: int| 0 <= a < old_links.len() && (#[trigger] old_links[a]).0@ == q;
                            assert(nl[a] == old_links[a]);
                        }
                        if q == p {
                            assert(nl[n as int].0@ == p);
                        }
                    }
                    assert forall|q: Seq<char>| #[trigger] link_map(nl).contains_key(q) implies link_map(nl)[q]
                        == link_map(old_links).insert(p, t)[q] by {
                        let a = choose|a: int| 0 <= a < nl.len() && (#[trigger] nl[a]).0@ == q;
                        assert(link_keys(nl)[a] == q);
                        if q == p {
                            assert(link_keys(nl)[n as int] == p);
                            assert(a == n);
                        } else {
                            assert(a != n);
                            assert(nl[a] == old_links[a]);
                            let c = choose|c: int| 0 <= c < old_links.len() && (#[trigger] old_links[c]).0@ == q;
                            assert(ok[c] == q && ok[a] == q);
                            assert(c == a);
                        }
                    }
                    assert(link_map(nl) =~= link_map(old_links).insert(p, t));
                }
            },
        }
    }

    /// Records `f` under its inode, replacing the file held there.
    pub fn insert_file(&mut self, f: BackupFile)
        requires
            old(self).wf(),
        ensures
            final(self).wf(),
            final(self).files_view() == old(self).files_view().insert(f.ino, f),
            final(self).dir_list() == old(self).dir_list(),
            final(self).link_list() == old(self).link_list(),
    {
        self.files.insert(f);
    }

    /// The file of inode `ino`.
    pub fn get_file(&self, ino: u64) -> (r: Option<&BackupFile>)
        requires
            self.wf(),
        ensures
            match r {
                Some(f) => self.files_view().contains_key(ino) && self.files_view()[ino] == *f,
                None => !self.files_view().contains_key(ino),
            },
    {
        self.files.get(ino)
    }

    /// The file records, each inode once.
    pub fn iter_files(&self) -> (r: &[BackupFile])
        requires
            self.wf(),
        ensures
            r@ == self.file_list(),
    {
        self.files.as_slice()
    }

    /// The directory paths.
    pub fn iter_directories(&self) -> (r: &[String])
        ensures
            r@ == self.dir_list(),
    {
        self.directories.as_slice()
    }

    /// The symlinks: (link path, target).
    pub fn iter_symlinks(&self) -> (r: &[(String, String)])
        ensures
            r@ == self.link_list(),
    {
        self.symlinks.as_slice()
    }

    /// A snapshot made of stored parts: the files are inserted in order.
    pub fn from_parts(
        files: Vec<BackupFile>,
        directories: Vec<String>,
        symlinks: Vec<(String, String)>,
    ) -> (r: Backup)
        ensures
            r.wf(),
            r.files_view() == files_by_ino(files@),
            r.dirs() == path_set(directories@),
            unique_paths(dir_keys(directories@)) ==> r.dir_list() == directories@,
            unique_paths(link_keys(symlinks@)) ==> r.link_list() == symlinks@,
    {
        let mut table = BackupFiles::new();
        let mut rest = files;
        let ghost all = rest@;
        let mut back: Vec<BackupFile> = Vec::new();
        while rest.len() > 0
            invariant
                rest@ + back@.reverse() == all,
            decreases rest.len(),
        {
            let ghost before = back@;
            let f = rest.pop().unwrap();
            back.push(f);
            proof {
                assert(back@.reverse() =~= seq![f] + before.reverse());
                assert(rest@ + back@.reverse() =~= all);
            }
        }
        proof {
            assert(back@.reverse() =~= all);
        }
        let ghost total = back@.len();
        while back.len() > 0
            invariant
                table.wf(),
                back@.len() <= total,
                total == all.len(),
                back@.reverse() == all.skip(total - back@.len()),
                table@ == files_by_ino(all.take(total - back@.len())),
            decreases back.len(),
        {
            let ghost k = total - back@.len();
            let ghost before = back@;
            let f = back.pop().unwrap();
            proof {
                assert(before.reverse()[0] == f);
                assert(all.skip(k)[0] == all[k]);
                assert(all.take(k + 1).drop_last() =~= all.take(k));
                assert(back@ =~= before.drop_last());
                assert(back@.reverse() =~= before.reverse().drop_first());
                assert(all.skip(k).drop_first() =~= all.skip(k + 1));
            }
            table.insert(f);
        }
        proof {
            assert(all.take(total as int) =~= all);
        }
        let mut r = Backup {
            files: table,
            directories: Vec::new(),
            dir_index: PathIndex::new(),
            symlinks: Vec::new(),
            link_index: PathIndex::new(),
        };
        proof {
            assert(dir_keys(r.directories@) =~= Seq::<Seq<char>>::empty());
            assert(link_keys(r.symlinks@) =~= Seq::<Seq<char>>::empty());
            assert(directories@.take(0) =~= Seq::<String>::empty());
            assert(path_set(Seq::<String>::empty()) =~= Set::<Seq<char>>::empty());
        }
        let mut i: usize = 0;
        while i < directories.len()
            invariant
                r.wf(),
                r.files_view() == files_by_ino(all),
                r.link_list() == Seq::<(String, String)>::empty(),
                i <= directories@.len(),
                r.dirs() == path_set(directories@.take(i as int)),
                unique_paths(dir_keys(directories@)) ==> r.dir_list() == directories@.take(i as int),
            decreases directories@.len() - i,
        {
            let d = directories[i].clone();
            proof {
                let t = directories@.take(i as int);
                assert(directories@.take(i as int + 1) =~= t.push(d));
                lemma_path_set_push(t, d);
                if unique_paths(dir_keys(directories@)) && path_set(t).contains(d@) {
                    let j = choose|j: int| 0 <= j < t.len() && (#[trigger] t[j])@ == d@;
                    assert(dir_keys(directories@)[j] == dir_keys(directories@)[i as int]);
                }
            }
            r.insert_directory(d);
            i = i + 1;
        }
        proof {
            assert(directories@.take(directories@.len() as int) =~= directories@);
            assert(symlinks@.take(0) =~= Seq::<(String, String)>::empty());
        }
        let mut k: usize = 0;
        while k < symlinks.len()
            invariant
                r.wf(),
                r.files_view() == files_by_ino(all),
                r.dirs() == path_set(directories@),
                unique_paths(dir_keys(directories@)) ==> r.dir_list() == directories@,
                k <= symlinks@.len(),
                unique_paths(link_keys(symlinks@)) ==> r.link_list() == symlinks@.take(k as int),
            decreases symlinks@.len() - k,
        {
            let l = (symlinks[k].0.clone(), symlinks[k].1.clone());
            proof {
                let t = symlinks@.take(k as int);
                assert(l == symlinks@[k as int]);
                assert(symlinks@.take(k as int + 1) =~= t.push(l));
                if unique_paths(link_keys(symlinks@)) && link_keys(t).contains(l.0@) {
                    let j = choose|j: int| 0 <= j < link_keys(t).len() && link_keys(t)[j] == l.0@;
                    assert(link_keys(symlinks@)[j] == link_keys(symlinks@)[k as int]);
                }
            }
            r.insert_symlink(l.0, l.1);
            k = k + 1;
        }
        proof {
            assert(symlinks@.take(symlinks@.len() as int) =~= symlinks@);
        }
        r
    }

    /// Every file of the snapshot is among the records it lists.
    pub proof fn lemma_file_listed(&self, ino: u64)
        requires
            self.wf(),
            self.files_view().contains_key(ino),
        ensures
            exists|i: int|
                0 <= i < self.file_list().len() && #[trigger] self.file_list()[i]
                    == self.files_view()[ino],
    {
        let i = self.files.index@[ino] as int;
        assert(self.file_list()[i] == self.files_view()[ino]);
    }

    /// No directory path and no link path is listed twice, so the parts of a
    /// snapshot rebuild it exactly (see `from_parts`).
    pub proof fn lemma_paths_unique(&self)
        requires
            self.wf(),
        ensures
            unique_paths(dir_keys(self.dir_list())),
            unique_paths(link_keys(self.link_list())),
    {
    }

    /// The file list holds each inode once: hard links collapse to one
    /// record.
    pub proof fn lemma_inos_unique(&self)
        requires
            self.wf(),
        ensures
            forall|i: int, j: int|
                0 <= i < self.file_list().len() && 0 <= j < self.file_list().len() && i != j
                    ==> (#[trigger] self.file_list()[i]).ino != (#[trigger] self.file_list()[j]).ino,
    {
        assert forall|i: int, j: int|
            0 <= i < self.file_list().len() && 0 <= j < self.file_list().len() && i != j
                implies (#[trigger] self.file_list()[i]).ino != (#[trigger] self.file_list()[j]).ino by {
            assert(self.files.index@.contains_key(self.files.data@[i].ino));
            assert(self.files.index@.contains_key(self.files.data@[j].ino));
        }
    }

    /// Every listed record is the file of its inode.
    pub proof fn lemma_files_have_inos(&self, i: int)
        requires
            self.wf(),
            0 <= i < self.file_list().len(),
        ensures
            self.files_view().contains_key(self.file_list()[i].ino),
            self.files_view()[self.file_list()[i].ino] == self.file_list()[i],
    {
    }

    /// Rebuilding a snapshot from the parts that it lists gives a snapshot with
    /// the same files, directories and symlinks.
    pub proof fn lemma_parts_round_trip(&self, r: &Backup)
        requires
            self.wf(),
            r.files_view() == files_by_ino(self.file_list()),
            r.dir_list() == self.dir_list(),
            r.link_list() == self.link_list(),
        ensures
            r.same_content(self),
    {
        self.files.lemma_records_rebuild();
    }
}

/// A file queued for storage: where to read it, where it sits in the
/// snapshot, and what was seen of it.
pub struct NewBackupFile {
    pub source: String,
    pub bkup_path: String,
    pub ino: u64,
    pub hash: crate::util::Hash,
    pub mtime: MTime,
    pub size: u64,
}

/// A snapshot under construction, with the files whose content must still be
/// stored.
pub struct BackupBuilder {
    inner: Backup,
    new_files: Vec<NewBackupFile>,
}

impl BackupBuilder {
    pub closed spec fn wf(&self) -> bool {
        self.inner.wf()
    }

    /// The snapshot built so far.
    pub closed spec fn backup(&self) -> Backup {
        self.inner
    }

    /// The files queued for storage, in order.
    pub closed spec fn queued(&self) -> Seq<NewBackupFile> {
        self.new_files@
    }

    pub fn new() -> (r: BackupBuilder)
        ensures
            r.wf(),
            r.backup().files_view() == Map::<u64, BackupFile>::empty(),
            r.backup().dir_list() == Seq::<String>::empty(),
            r.backup().link_list() == Seq::<(String, String)>::empty(),
            r.queued() == Seq::<NewBackupFile>::empty(),
    {
        BackupBuilder { inner: Backup::new(), new_files: Vec::new() }
    }

    pub fn insert_directory(&mut self, path: String)
        requires
            old(self).wf(),
        ensures
            final(self).wf(),
            final(self).backup().dirs() == old(self).backup().dirs().insert(path@),
            final(self).backup().dir_list() == if old(self).backup().dirs().contains(path@) {
                old(self).backup().dir_list()
            } else {
                old(self).backup().dir_list().push(path)
            },
            final(self).backup().files_view() == old(self).backup().files_view(),
            final(self).backup().link_list() == old(self).backup().link_list(),
            final(self).queued() == old(self).queued(),
    {
        self.inner.insert_directory(path);
    }

    pub fn insert_symlink(&mut self, path: String, target: String)
        requires
            old(self).wf(),
        ensures
            final(self).wf(),
            final(self).backup().links() == old(self).backup().links().insert(path@, target@),
            !link_keys(old(self).backup().link_list()).contains(path@) ==> final(self).backup().link_list()
                == old(self).backup().link_list().push((path, target)),
            link_keys(final(self).backup().link_list()) == if link_keys(
                old(self).backup().link_list(),
            ).contains(path@) {
                link_keys(old(self).backup().link_list())
            } else {
                link_keys(old(self).backup().link_list()).push(path@)
            },
            final(self).backup().files_view() == old(self).backup().files_view(),
            final(self).backup().dir_list() == old(self).backup().dir_list(),
            final(self).queued() == old(self).queued(),
    {
        self.inner.insert_symlink(path, target);
    }

    /// Records a file whose content is not known to be stored, and queues it
    /// for storage.
    pub fn insert_new_file(
        &mut self,
        src_path: String,
        bkup_path: String,
        hash: crate::util::Hash,
        ino: u64,
        mtime: MTime,
        size: u64,
    )
        requires
            old(self).wf(),
        ensures
            final(self).wf(),
            final(self).backup().files_view() == old(self).backup().files_view().insert(
                ino,
                BackupFile { ino, path: bkup_path, hash, mtime },
            ),
            final(self).backup().dir_list() == old(self).backup().dir_list(),
            final(self).backup().link_list() == old(self).backup().link_list(),
            final(self).queued() == old(self).queued().push(
                NewBackupFile { source: src_path, bkup_path, ino, hash, mtime, size },
            ),
    {
        self.inner.insert_file(BackupFile { ino, path: bkup_path.clone(), hash, mtime });
        self.new_files.push(NewBackupFile { source: src_path, bkup_path, ino, hash, mtime, size });
    }

    /// Records a file whose content is already stored; nothing is queued.
    pub fn insert_unchanged_file(
        &mut self,
        path: String,
        hash: crate::util::Hash,
        ino: u64,
        mtime: MTime,
    )
        requires
            old(self).wf(),
        ensures
            final(self).wf(),
            final(self).backup().files_view() == old(self).backup().files_view().insert(
                ino,
                BackupFile { ino, path, hash, mtime },
            ),
            final(self).backup().dir_list() == old(self).backup().dir_list(),
            final(self).backup().link_list() == old(self).backup().link_list(),
            final(self).queued() == old(self).queued(),
    {
        self.inner.insert_file(BackupFile { ino, path, hash, mtime });
    }

    /// The files queued for storage.
    pub fn iter_new_files(&self) -> (r: &[NewBackupFile])
        ensures
            r@ == self.queued(),
    {
        self.new_files.as_slice()
    }

    /// The snapshot, and the files queued for storage.
    pub fn finish(self) -> (r: (Backup, Vec<NewBackupFile>))
        requires
            self.wf(),
        ensures
            r.0 == self.backup(),
            r.0.wf(),
            r.1@ == self.queued(),
    {
        (self.inner, self.new_files)
    }

    /// The snapshot built so far.
    pub fn into_inner(self) -> (r: Backup)
        requires
            self.wf(),
        ensures
            r == self.backup(),
            r.wf(),
    {
        self.inner
    }
}

} // verus!
