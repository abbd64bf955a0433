use vstd::prelude::*;
use vstd::string::*;

use crate::backup::{link_keys, Backup, BackupBuilder, BackupFile, NewBackupFile};
use crate::util::MTime;

verus! {

/// One entry met while walking a source tree, classified by its type.
pub enum DirEntry {
    File { path: String, ino: u64, mtime: MTime, size: u64 },
    Directory { path: String },
    Symlink { path: String, target: String },
    Special { path: String },
}

/// Why a scan stopped.  The whole backup is abandoned on any of them.
pub enum ScanError {
    /// A socket, device, fifo or other entry that cannot be backed up.
    SpecialFile { path: String },
    /// Reading a file to hash it failed.
    Io { path: String, message: String },
    /// An entry whose path is not below the root of the scan.
    OutsideRoot { path: String },
}

/// The path of `p` below `root`: what follows `root` and one separator
/// (none where `root` already ends with one); `None` where `p` is not
/// strictly below `root`.
pub open spec fn relative_to(p: Seq<char>, root: Seq<char>) -> Option<Seq<char>> {
    let sep: int = if root.len() > 0 && root.last() == '/' { 0 } else { 1 };
    if p.len() > root.len() + sep && p.subrange(0, root.len() as int) == root && (sep == 0
        || p[root.len() as int] == '/') {
        Some(p.subrange(root.len() + sep, p.len() as int))
    } else {
        None
    }
}

impl DirEntry {
    pub open spec fn spec_path(&self) -> Seq<char> {
        match self {
            DirEntry::File { path, .. } => path@,
            DirEntry::Directory { path } => path@,
            DirEntry::Symlink { path, .. } => path@,
            DirEntry::Special { path } => path@,
        }
    }

    /// The path of the entry as the walk gave it.
    pub fn path(&self) -> (r: &str)
        ensures
            r@ == self.spec_path(),
    {
        match self {
            DirEntry::File { path, .. } => path.as_str(),
            DirEntry::Directory { path } => path.as_str(),
            DirEntry::Symlink { path, .. } => path.as_str(),
            DirEntry::Special { path } => path.as_str(),
        }
    }

    /// The path of the entry below `bkup_root`.
    pub fn path_relative_to(&self, bkup_root: &str) -> (r: Option<String>)
        ensures
            match r {
                Some(s) => relative_to(self.spec_path(), bkup_root@) == Some(s@),
                None => relative_to(self.spec_path(), bkup_root@) is None,
            },
    {
        let p = self.path();
        let pl = p.unicode_len();
        let rl = bkup_root.unicode_len();
        let sep: usize = if rl > 0 && bkup_root.get_char(rl - 1) == '/' { 0 } else { 1 };
        if pl <= rl || pl - rl <= sep {
            return None;
        }
        let head = p.substring_char(0, rl).to_owned();
        let root = bkup_root.to_owned();
        if !(head == root) {
            return None;
        }
        if sep == 1 && p.get_char(rl) != '/' {
            return None;
        }
        Some(p.substring_char(rl + sep, pl).to_owned())
    }
}

/// What is known of a file before reading it.
pub enum FileCheck {
    /// The prior snapshot holds this inode with a modification time no older
    /// than the file's: its digest is taken over without reading the file.
    Unchanged(crate::util::Hash),
    /// The file must be read and hashed.
    NeedsHash,
}

/// The record of inode `ino` in the prior snapshot, if there is one.
pub open spec fn prior_file(old: Option<&Backup>, ino: u64) -> Option<BackupFile> {
    match old {
        Some(b) => if b.files_view().contains_key(ino) {
            Some(b.files_view()[ino])
        } else {
            None
        },
        None => None,
    }
}

/// The decision taken for a file of inode `ino` modified at `mtime`.
pub open spec fn file_check(prior: Option<BackupFile>, mtime: MTime) -> FileCheck {
    match prior {
        Some(f) => if mtime.nanos() <= f.mtime.nanos() {
            FileCheck::Unchanged(f.hash)
        } else {
            FileCheck::NeedsHash
        },
        None => FileCheck::NeedsHash,
    }
}

/// Whether a file just hashed to `hash` holds content that may not be stored
/// yet: it is a new inode, or its digest differs from the prior one.
pub open spec fn is_new_content(prior: Option<BackupFile>, hash: crate::util::Hash) -> bool {
    match prior {
        Some(f) => f.hash@ != hash@,
        None => true,
    }
}

/// A scan in progress: the root being scanned, the prior snapshot of the
/// same name if any, and the snapshot being built.
pub struct BackupState<'a> {
    bkup_root: String,
    old: Option<&'a Backup>,
    new: BackupBuilder,
}

impl<'a> BackupState<'a> {
    pub closed spec fn root(&self) -> Seq<char> {
        self.bkup_root@
    }

    pub closed spec fn prior(&self) -> Option<&'a Backup> {
        self.old
    }

    pub closed spec fn builder(&self) -> BackupBuilder {
        self.new
    }

    pub open spec fn wf(&self) -> bool {
        &&& self.builder().wf()
        &&& match self.prior() {
            Some(b) => b.wf(),
            None => true,
        }
    }

    /// Whether `o` scans the same root against the same prior snapshot.
    pub open spec fn same_scan(&self, o: &Self) -> bool {
        self.root() == o.root() && self.prior() == o.prior()
    }

    /// A scan of `bkup_root` against the prior snapshot `old`.
    pub fn new(bkup_root: &str, old: Option<&'a Backup>) -> (r: BackupState<'a>)
        requires
            match old {
                Some(b) => b.wf(),
                None => true,
            },
        ensures
            r.wf(),
            r.root() == bkup_root@,
            r.prior() == old,
            r.builder().backup().files_view() == Map::<u64, BackupFile>::empty(),
            r.builder().backup().dir_list() == Seq::<String>::empty(),
            r.builder().backup().link_list() == Seq::<(String, String)>::empty(),
            r.builder().queued() == Seq::<NewBackupFile>::empty(),
    {
        BackupState { bkup_root: bkup_root.to_owned(), old, new: BackupBuilder::new() }
    }

    /// What is known of a file of inode `ino` modified at `mtime`, before
    /// reading it.
    pub fn check_file(&self, ino: u64, mtime: MTime) -> (r: FileCheck)
        requires
            self.wf(),
        ensures
            r == file_check(prior_file(self.prior(), ino), mtime),
    {
        match self.old {
            Some(b) => match b.get_file(ino) {
                Some(f) => if mtime.not_after(&f.mtime) {
                    FileCheck::Unchanged(f.hash)
                } else {
                    FileCheck::NeedsHash
                },
                None => FileCheck::NeedsHash,
            },
            None => FileCheck::NeedsHash,
        }
    }

    /// Records a file that was just hashed to `hash`: queued for storage
    /// where its content is new, recorded as unchanged where it kept the
    /// prior digest of its inode.
    pub fn record_hashed_file(
        &mut self,
        src_path: String,
        bkup_path: String,
        ino: u64,
        mtime: MTime,
        size: u64,
        hash: crate::util::Hash,
    )
        requires
            old(self).wf(),
        ensures
            final(self).wf(),
            final(self).same_scan(old(self)),
            final(self).builder().backup().files_view() == old(self).builder().backup().files_view().insert(
                ino,
                BackupFile { ino, path: bkup_path, hash, mtime },
            ),
            final(self).builder().backup().dir_list() == old(self).builder().backup().dir_list(),
            final(self).builder().backup().link_list() == old(self).builder().backup().link_list(),
            final(self).builder().queued() == if is_new_content(prior_file(old(self).prior(), ino), hash) {
                old(self).builder().queued().push(
                    NewBackupFile { source: src_path, bkup_path, ino, hash, mtime, size },
                )
            } else {
                old(self).builder().queued()
            },
    {
        let same = match self.old {
            Some(b) => match b.get_file(ino) {
                Some(f) => f.hash.same(&hash),
                None => false,
            },
            None => false,
        };
        if same {
            self.new.insert_unchanged_file(bkup_path, hash, ino, mtime);
        } else {
            self.new.insert_new_file(src_path, bkup_path, hash, ino, mtime, size);
        }
    }
}

/// `n` is `o` with the file of inode `ino` set to a record of that inode with
/// path `path`, digest `hash` and modification time `mtime`.
pub open spec fn file_put(
    o: Backup,
    n: Backup,
    ino: u64,
    path: Seq<char>,
    hash: crate::util::Hash,
    mtime: MTime,
) -> bool {
    &&& n.files_view() == o.files_view().insert(ino, n.files_view()[ino])
    &&& n.files_view()[ino].ino == ino
    &&& n.files_view()[ino].path@ == path
    &&& n.files_view()[ino].hash == hash
    &&& n.files_view()[ino].mtime == mtime
    &&& n.dir_list() == o.dir_list()
    &&& n.link_list() == o.link_list()
}

/// `n` is `o` with one more file queued: read from `source`, at `path` in the
/// snapshot.
pub open spec fn queue_put(
    o: Seq<NewBackupFile>,
    n: Seq<NewBackupFile>,
    source: Seq<char>,
    path: Seq<char>,
    ino: u64,
    hash: crate::util::Hash,
    mtime: MTime,
    size: u64,
) -> bool {
    &&& n.len() == o.len() + 1
    &&& n.drop_last() == o
    &&& n.last().source@ == source
    &&& n.last().bkup_path@ == path
    &&& n.last().ino == ino
    &&& n.last().hash == hash
    &&& n.last().mtime == mtime
    &&& n.last().size == size
}

/// What scanning one entry does to the snapshot being built (`o` before, `n`
/// after), given the prior record of a file's inode and, for a file that
/// was read, the digest that came out.
pub open spec fn entry_step(
    o: BackupBuilder,
    n: BackupBuilder,
    entry: DirEntry,
    rel: Seq<char>,
    prior: Option<BackupFile>,
    hash: crate::util::Hash,
) -> bool {
    match entry {
        DirEntry::Directory { .. } => {
            &&& n.backup().dirs() == o.backup().dirs().insert(rel)
            &&& (if o.backup().dirs().contains(rel) {
                n.backup().dir_list() == o.backup().dir_list()
            } else {
                n.backup().dir_list().len() == o.backup().dir_list().len() + 1
                    && n.backup().dir_list().drop_last() == o.backup().dir_list()
                    && n.backup().dir_list().last()@ == rel
            })
            &&& n.backup().files_view() == o.backup().files_view()
            &&& n.backup().link_list() == o.backup().link_list()
            &&& n.queued() == o.queued()
        },
        DirEntry::Symlink { target, .. } => {
            &&& n.backup().links() == o.backup().links().insert(rel, target@)
            &&& link_keys(n.backup().link_list()) == if link_keys(o.backup().link_list()).contains(rel) {
                link_keys(o.backup().link_list())
            } else {
                link_keys(o.backup().link_list()).push(rel)
            }
            &&& n.backup().files_view() == o.backup().files_view()
            &&& n.backup().dir_list() == o.backup().dir_list()
            &&& n.queued() == o.queued()
        },
        DirEntry::File { path, ino, mtime, size } => {
            &&& file_put(o.backup(), n.backup(), ino, rel, hash, mtime)
            &&& if is_new_content(prior, hash) {
                queue_put(o.queued(), n.queued(), path@, rel, ino, hash, mtime, size)
            } else {
                n.queued() == o.queued()
            }
        },
        DirEntry::Special { .. } => false,
    }
}

/// Whether `b` is a builder with nothing in it yet.
pub open spec fn is_empty_builder(b: BackupBuilder) -> bool {
    &&& b.wf()
    &&& b.backup().files_view() == Map::<u64, BackupFile>::empty()
    &&& b.backup().dir_list() == Seq::<String>::empty()
    &&& b.backup().link_list() == Seq::<(String, String)>::empty()
    &&& b.queued() == Seq::<NewBackupFile>::empty()
}

/// Whether scanning `e` below `root`, against the prior snapshot `old`,
/// takes the builder from `o` to `n`.  A directory or a symlink is recorded
/// under its path below `root`.  A file is recorded with the prior digest of
/// its inode where `file_check` says it is unchanged, and otherwise with the
/// digest that reading it gave (any digest: the bytes are on disk); it is
/// queued exactly where that digest is new content.
pub open spec fn entry_ok(
    o: BackupBuilder,
    n: BackupBuilder,
    e: DirEntry,
    root: Seq<char>,
    old: Option<&Backup>,
) -> bool {
    &&& n.wf()
    &&& relative_to(e.spec_path(), root) is Some
    &&& match e {
        DirEntry::File { ino, mtime, .. } => exists|h: crate::util::Hash|
            entry_step(
                o,
                n,
                e,
                relative_to(e.spec_path(), root)->Some_0,
                prior_file(old, ino),
                h,
            ) && (file_check(prior_file(old, ino), mtime) matches FileCheck::Unchanged(h0)
                ==> h == h0),
        DirEntry::Special { .. } => false,
        _ => forall|h: crate::util::Hash|
            entry_step(o, n, e, relative_to(e.spec_path(), root)->Some_0, None, h),
    }
}

/// Whether `err` is the error that scanning `e` below `root` gives: an
/// entry outside the root, a special file, or a file that had to be read and
/// could not be.
pub open spec fn entry_error(e: DirEntry, root: Seq<char>, old: Option<&Backup>, err: ScanError) -> bool {
    match relative_to(e.spec_path(), root) {
        None => err matches ScanError::OutsideRoot { path } && path@ == e.spec_path(),
        Some(_) => match e {
            DirEntry::Special { path } => err matches ScanError::SpecialFile { path: p } && p@
                == path@,
            DirEntry::File { path, ino, mtime, .. } => file_check(
                prior_file(old, ino),
                mtime,
            ) is NeedsHash && (err matches ScanError::Io { path: p, .. } && p@ == path@),
            _ => false,
        },
    }
}

/// Whether `bs` traces a scan of `entries` one after the other: it starts
/// empty, and each entry takes it one step further.
pub open spec fn scan_trace(
    bs: Seq<BackupBuilder>,
    entries: Seq<DirEntry>,
    root: Seq<char>,
    old: Option<&Backup>,
) -> bool {
    &&& bs.len() == entries.len() + 1
    &&& is_empty_builder(bs[0])
    &&& forall|i: int|
        0 <= i < entries.len() ==> entry_ok(bs[i], bs[i + 1], #[trigger] entries[i], root, old)
}

/// Whether `b` is what scanning all of `entries` builds.
pub open spec fn scanned(
    b: BackupBuilder,
    entries: Seq<DirEntry>,
    root: Seq<char>,
    old: Option<&Backup>,
) -> bool {
    exists|bs: Seq<BackupBuilder>| scan_trace(bs, entries, root, old) && bs.last() == b
}

/// Whether a scan of `entries` stops with `err`: the entries before some
/// entry pass, and that entry fails with `err`.
pub open spec fn scan_failed(
    err: ScanError,
    entries: Seq<DirEntry>,
    root: Seq<char>,
    old: Option<&Backup>,
) -> bool {
    exists|k: int, bs: Seq<BackupBuilder>|
        0 <= k < entries.len() && #[trigger] scan_trace(bs, entries.take(k), root, old) && entry_error(
            entries[k],
            root,
            old,
            err,
        )
}

/// Whether an entry gets through a scan of `root` without error whatever
/// is read: it lies below `root`, is not a special file, and, where it is a
/// file, need not be read.
pub open spec fn passes_without_reading(entry: DirEntry, root: Seq<char>, old: Option<&Backup>) -> bool {
    &&& relative_to(entry.spec_path(), root) is Some
    &&& !(entry is Special)
    &&& entry matches DirEntry::File { ino, mtime, .. } ==> file_check(
        prior_file(old, ino),
        mtime,
    ) is Unchanged
}

impl<'a> BackupState<'a> {
    /// Scans one entry into the snapshot being built.  A directory or a
    /// symlink is recorded as it is.  A file reuses the prior digest of its
    /// inode where its modification time is no newer than the prior one, and
    /// is read and hashed otherwise (a new inode always is).  A special file,
    /// or an entry outside the root, is an error and changes nothing.
    #[verifier::rlimit(50)]
    pub fn backup_single_dir_entry(&mut self, entry: &DirEntry) -> (r: Result<(), ScanError>)
        requires
            old(self).wf(),
        ensures
            final(self).wf(),
            final(self).same_scan(old(self)),
            r is Ok ==> entry_ok(
                old(self).builder(),
                final(self).builder(),
                *entry,
                old(self).root(),
                old(self).prior(),
            ),
            r matches Err(e) ==> entry_error(*entry, old(self).root(), old(self).prior(), e)
                && final(self).builder() == old(self).builder(),
            passes_without_reading(*entry, old(self).root(), old(self).prior()) ==> r is Ok,
    {
        let bkup_path = match entry.path_relative_to(self.bkup_root.as_str()) {
            Some(p) => p,
            None => {
                return Err(ScanError::OutsideRoot { path: entry.path().to_owned() });
            },
        };
        let ghost rel = bkup_path@;
        proof {
            assert(rel == relative_to(entry.spec_path(), old(self).root())->Some_0);
        }
        match entry {
            DirEntry::File { path, ino, mtime, size } => {
                match self.check_file(*ino, *mtime) {
                    FileCheck::Unchanged(hash) => {
                        self.new.insert_unchanged_file(bkup_path, hash, *ino, *mtime);
                        proof {
                            assert(!is_new_content(prior_file(old(self).prior(), *ino), hash));
                            assert(entry_step(old(self).builder(), self.builder(), *entry, rel, prior_file(old(self).prior(), *ino), hash));
                            assert(entry_ok(old(self).builder(), self.builder(), *entry, old(self).root(), old(self).prior()));
                        }
                    },
                    FileCheck::NeedsHash => {
                        match crate::util::Hash::of_file(path.as_str()) {
                            Ok(hash) => {
                                self.record_hashed_file(path.clone(), bkup_path, *ino, *mtime, *size, hash);
                                proof {
                                    if is_new_content(prior_file(old(self).prior(), *ino), hash) {
                                        assert(self.builder().queued().drop_last() =~= old(self).builder().queued());
                                    }
                                    assert(entry_step(
                                        old(self).builder(),
                                        self.builder(),
                                        *entry,
                                        rel,
                                        prior_file(old(self).prior(), *ino),
                                        hash,
                                    ));
                                    assert(entry_ok(old(self).builder(), self.builder(), *entry, old(self).root(), old(self).prior()));
                                }
                            },
                            Err(message) => {
                                return Err(ScanError::Io { path: path.clone(), message });
                            },
                        }
                    },
                }
            },
            DirEntry::Directory { .. } => {
                self.new.insert_directory(bkup_path);
                proof {
                    if !old(self).builder().backup().dirs().contains(rel) {
                        assert(self.builder().backup().dir_list().drop_last() =~= old(self).builder().backup().dir_list());
                    }
                    assert forall|h: crate::util::Hash| entry_step(old(self).builder(), self.builder(), *entry, rel, None, h) by {}
                }
            },
            DirEntry::Symlink { target, .. } => {
                self.new.insert_symlink(bkup_path, target.clone());
                proof {
                    assert forall|h: crate::util::Hash| entry_step(old(self).builder(), self.builder(), *entry, rel, None, h) by {}
                }
            },
            DirEntry::Special { path } => {
                return Err(ScanError::SpecialFile { path: path.clone() });
            },
        }
        proof {
            assert(relative_to(entry.spec_path(), old(self).root()) == Some(rel));
            assert(self.root() == old(self).root());
        }
        Ok(())
    }

    /// The snapshot built, and the files queued for storage.
    pub fn finish(self) -> (r: BackupBuilder)
        requires
            self.wf(),
        ensures
            r == self.builder(),
            r.wf(),
    {
        self.new
    }
}

/// Scans the entries of a walk of `root` (the root itself left out) into a
/// new snapshot, against the prior snapshot `old` of the same name, one
/// entry after the other as `backup_single_dir_entry` does.  It stops at the
/// first entry that fails, with that entry's error.  Where every entry gets
/// through without reading, it succeeds.
pub fn scan_dir_into_backup(root: &str, old: Option<&Backup>, entries: &[DirEntry]) -> (r: Result<
    BackupBuilder,
    ScanError,
>)
    requires
        match old {
            Some(b) => b.wf(),
            None => true,
        },
    ensures
        match r {
            Ok(b) => b.wf() && scanned(b, entries@, root@, old),
            Err(e) => scan_failed(e, entries@, root@, old),
        },
        (forall|i: int|
            0 <= i < entries@.len() ==> passes_without_reading(#[trigger] entries@[i], root@, old))
            ==> r is Ok,
{
    let mut state = BackupState::new(root, old);
    let mut i: usize = 0;
    let ghost mut bs: Seq<BackupBuilder> = seq![state.builder()];
    proof {
        assert(entries@.take(0) =~= Seq::<DirEntry>::empty());
    }
    while i < entries.len()
        invariant
            state.wf(),
            state.root() == root@,
            state.prior() == old,
            i <= entries@.len(),
            scan_trace(bs, entries@.take(i as int), root@, old),
            bs.last() == state.builder(),
            (forall|j: int|
                0 <= j < entries@.len() ==> passes_without_reading(#[trigger] entries@[j], root@, old))
                ==> forall|j: int| 0 <= j < i ==> passes_without_reading(#[trigger] entries@[j], root@, old),
        decreases entries@.len() - i,
    {
        let ghost before = state.builder();
        match state.backup_single_dir_entry(&entries[i]) {
            Ok(()) => {
                proof {
                    let t = entries@.take(i as int + 1);
                    let bs2 = bs.push(state.builder());
                    assert forall|j: int| 0 <= j < t.len() implies entry_ok(
                        bs2[j],
                        bs2[j + 1],
                        #[trigger] t[j],
                        root@,
                        old,
                    ) by {
                        if j < i {
                            assert(t[j] == entries@.take(i as int)[j]);
                            assert(bs2[j] == bs[j] && bs2[j + 1] == bs[j + 1]);
                        } else {
                            assert(t[j] == entries@[i as int]);
                        }
                    }
                    assert(scan_trace(bs2, t, root@, old));
                    bs = bs2;
                }
            },
            Err(e) => {
                proof {
                    assert(scan_trace(bs, entries@.take(i as int), root@, old));
                }
                return Err(e);
            },
        }
        i = i + 1;
    }
    proof {
        assert(entries@.take(entries@.len() as int) =~= entries@);
    }
    Ok(state.finish())
}

/// How many entries of `entries` are regular files.
pub open spec fn file_count(entries: Seq<DirEntry>) -> nat
    decreases entries.len(),
{
    if entries.len() == 0 {
        0
    } else {
        file_count(entries.drop_last()) + if entries.last() is File {
            1nat
        } else {
            0nat
        }
    }
}

/// Whether every file of `entries` keeps the prior digest of its inode
/// without being read.
pub open spec fn all_unchanged(entries: Seq<DirEntry>, old: Option<&Backup>) -> bool {
    forall|i: int|
        0 <= i < entries.len() ==> (#[trigger] entries[i] matches DirEntry::File { ino, mtime, .. }
            ==> file_check(prior_file(old, ino), mtime) is Unchanged)
}

/// A trace without its last entry is a trace.
proof fn lemma_trace_drop_last(
    bs: Seq<BackupBuilder>,
    entries: Seq<DirEntry>,
    root: Seq<char>,
    old: Option<&Backup>,
)
    requires
        scan_trace(bs, entries, root, old),
        entries.len() > 0,
    ensures
        scan_trace(bs.drop_last(), entries.drop_last(), root, old),
        entry_ok(bs[entries.len() - 1], bs.last(), entries.last(), root, old),
{
    let n = entries.len() as int;
    let p = bs.drop_last();
    let f = entries.drop_last();
    assert forall|i: int| 0 <= i < f.len() implies entry_ok(p[i], p[i + 1], #[trigger] f[i], root, old) by {
        assert(f[i] == entries[i]);
        assert(entry_ok(bs[i], bs[i + 1], entries[i], root, old));
    }
    assert(entry_ok(bs[n - 1], bs[n], entries[n - 1], root, old));
}

/// What a completed scan records: every directory under its path below the
/// root, every symlink under its path, every file under its inode.  With no
/// prior snapshot every file is queued for storage.  Where every file keeps
/// its prior digest, nothing is queued and each recorded file has the prior
/// digest of its inode.
pub proof fn lemma_scan_records(
    bs: Seq<BackupBuilder>,
    entries: Seq<DirEntry>,
    root: Seq<char>,
    old: Option<&Backup>,
)
    requires
        scan_trace(bs, entries, root, old),
    ensures
        forall|i: int|
            0 <= i < entries.len() && #[trigger] entries[i] is Directory ==> bs.last().backup().dirs().contains(
                relative_to(entries[i].spec_path(), root)->Some_0,
            ),
        forall|i: int|
            0 <= i < entries.len() && #[trigger] entries[i] is Symlink ==> bs.last().backup().links().contains_key(
                relative_to(entries[i].spec_path(), root)->Some_0,
            ),
        forall|i: int|
            0 <= i < entries.len() ==> (#[trigger] entries[i] matches DirEntry::File { ino, .. }
                ==> bs.last().backup().files_view().contains_key(ino)),
        old is None ==> bs.last().queued().len() == file_count(entries),
        all_unchanged(entries, old) ==> bs.last().queued().len() == 0,
        all_unchanged(entries, old) ==> forall|ino: u64| #[trigger]
            bs.last().backup().files_view().contains_key(ino) ==> prior_file(old, ino) is Some
                && bs.last().backup().files_view()[ino].hash == prior_file(old, ino)->Some_0.hash,
    decreases entries.len(),
{
    let n = entries.len() as int;
    if n == 0 {
        assert(bs.last() == bs[0]);
        return;
    }
    lemma_trace_drop_last(bs, entries, root, old);
    let p = bs.drop_last();
    let f = entries.drop_last();
    lemma_scan_records(p, f, root, old);
    let o = bs[n - 1];
    let b = bs.last();
    let e = entries.last();
    assert(p.last() == o);
    assert(e == entries[n - 1]);
    if all_unchanged(entries, old) {
        assert forall|i: int| 0 <= i < f.len() implies (#[trigger] f[i] matches DirEntry::File { ino, mtime, .. }
            ==> file_check(prior_file(old, ino), mtime) is Unchanged) by {
            assert(f[i] == entries[i]);
        }
    }
    match e {
        DirEntry::Directory { .. } => {
            let h = arbitrary::<crate::util::Hash>();
            assert(entry_step(o, b, e, relative_to(e.spec_path(), root)->Some_0, None, h));
        },
        DirEntry::Symlink { .. } => {
            let h = arbitrary::<crate::util::Hash>();
            assert(entry_step(o, b, e, relative_to(e.spec_path(), root)->Some_0, None, h));
        },
        DirEntry::File { ino, mtime, .. } => {
            let h = choose|h: crate::util::Hash|
                entry_step(o, b, e, relative_to(e.spec_path(), root)->Some_0, prior_file(old, ino), h)
                    && (file_check(prior_file(old, ino), mtime) matches FileCheck::Unchanged(h0)
                    ==> h == h0);
            assert(b.backup().dir_list() == o.backup().dir_list());
            assert(b.backup().files_view().contains_key(ino));
            if all_unchanged(entries, old) {
                assert(entries[n - 1] == e);
                assert(file_check(prior_file(old, ino), mtime) is Unchanged);
                assert(!is_new_content(prior_file(old, ino), h));
            }
        },
        DirEntry::Special { .. } => {},
    }
    assert forall|i: int|
        0 <= i < entries.len() && #[trigger] entries[i] is Directory implies b.backup().dirs().contains(
            relative_to(entries[i].spec_path(), root)->Some_0,
        ) by {
        if i < n - 1 {
            assert(f[i] == entries[i]);
        }
    }
    assert forall|i: int|
        0 <= i < entries.len() && #[trigger] entries[i] is Symlink implies b.backup().links().contains_key(
            relative_to(entries[i].spec_path(), root)->Some_0,
        ) by {
        if i < n - 1 {
            assert(f[i] == entries[i]);
        }
    }
    assert forall|i: int|
        0 <= i < entries.len() implies (#[trigger] entries[i] matches DirEntry::File { ino, .. }
            ==> b.backup().files_view().contains_key(ino)) by {
        if i < n - 1 {
            assert(f[i] == entries[i]);
        }
    }
}

/// What a successful scan built, stated on its result: every directory and
/// symlink recorded under its path below the root, every file under its
/// inode; with no prior snapshot every file queued; where every file keeps
/// its prior digest, nothing queued and each file with its prior digest.
pub proof fn lemma_scanned_records(
    b: BackupBuilder,
    entries: Seq<DirEntry>,
    root: Seq<char>,
    old: Option<&Backup>,
)
    requires
        scanned(b, entries, root, old),
    ensures
        forall|i: int|
            0 <= i < entries.len() && #[trigger] entries[i] is Directory ==> b.backup().dirs().contains(
                relative_to(entries[i].spec_path(), root)->Some_0,
            ),
        forall|i: int|
            0 <= i < entries.len() && #[trigger] entries[i] is Symlink ==> b.backup().links().contains_key(
                relative_to(entries[i].spec_path(), root)->Some_0,
            ),
        forall|i: int|
            0 <= i < entries.len() ==> (#[trigger] entries[i] matches DirEntry::File { ino, .. }
                ==> b.backup().files_view().contains_key(ino)),
        old is None ==> b.queued().len() == file_count(entries),
        all_unchanged(entries, old) ==> b.queued().len() == 0,
        all_unchanged(entries, old) ==> forall|ino: u64| #[trigger]
            b.backup().files_view().contains_key(ino) ==> prior_file(old, ino) is Some
                && b.backup().files_view()[ino].hash == prior_file(old, ino)->Some_0.hash,
{
    let bs = choose|bs: Seq<BackupBuilder>| scan_trace(bs, entries, root, old) && bs.last() == b;
    lemma_scan_records(bs, entries, root, old);
}

/// Change detection against a prior record of the same inode (digest `H1`,
/// time `T1`): a file whose time is not after `T1` keeps `H1` and is not
/// read; one whose time is after `T1` is read, and is new content exactly
/// where its digest is no longer `H1`.
pub proof fn lemma_change_detection(prior: BackupFile, mtime: MTime, hash: crate::util::Hash)
    ensures
        mtime.nanos() <= prior.mtime.nanos() ==> file_check(Some(prior), mtime)
            == FileCheck::Unchanged(prior.hash),
        mtime.nanos() > prior.mtime.nanos() ==> file_check(Some(prior), mtime) is NeedsHash,
        is_new_content(Some(prior), hash) <==> hash@ != prior.hash@,
{
}

/// A file whose inode has no prior record is always read, whatever its
/// time, and its content is new.
pub proof fn lemma_new_inode(mtime: MTime, hash: crate::util::Hash)
    ensures
        file_check(None, mtime) is NeedsHash,
        is_new_content(None, hash),
{
}

} // verus!
