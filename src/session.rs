use vstd::prelude::*;

use crate::backup::{BackupBuilder, NewBackupFile};
use crate::database::{blocks_cover, merge_sizes, Database, IntegrityError};
use crate::backup::Backup;
use crate::scan::{scan_dir_into_backup, scan_failed, scanned, DirEntry, ScanError};

verus! {

/// Where a backup operation stands.
pub enum Phase {
    /// The source tree has not been scanned yet.
    Scanning,
    /// The scan succeeded; the queued files are being stored.
    Storing,
    /// The snapshot has been committed to the database.
    Committed,
    /// A step failed; the database is as it was.
    Failed,
}

/// One backup operation on an opened vault: scan the source tree, store
/// every queued file, and only then commit the snapshot.  Until the commit
/// the database is left exactly as it was, so a failure at any step commits
/// nothing.
pub struct BackupSession {
    database: Database,
    name: String,
    phase: Phase,
    builder: BackupBuilder,
    stored: usize,
}

/// The snapshot that `db` holds under `name`, if any: the prior snapshot
/// that a new backup of that name is compared with.
pub open spec fn prior_of(db: Database, name: Seq<char>) -> Option<&'static Backup> {
    if db.backups_view().contains_key(name) {
        Some(&db.backups_view()[name])
    } else {
        None
    }
}

impl BackupSession {
    pub closed spec fn db(&self) -> Database {
        self.database
    }

    pub closed spec fn name(&self) -> Seq<char> {
        self.name@
    }

    pub closed spec fn phase(&self) -> Phase {
        self.phase
    }

    /// The files queued for storage by the scan.
    pub closed spec fn queued(&self) -> Seq<NewBackupFile> {
        self.builder.queued()
    }

    /// How many queued files are stored so far.
    pub closed spec fn stored_count(&self) -> nat {
        self.stored as nat
    }

    /// The snapshot that the scan built.
    pub closed spec fn builder(&self) -> BackupBuilder {
        self.builder
    }

    pub closed spec fn wf(&self) -> bool {
        &&& self.database.wf()
        &&& self.builder.wf()
        &&& self.stored <= self.builder.queued().len()
        &&& (self.phase is Scanning ==> self.builder.queued().len() == 0)
    }

    /// A backup of the snapshot `name` on `database`.
    pub fn new(database: Database, name: &str) -> (r: BackupSession)
        requires
            database.wf(),
        ensures
            r.wf(),
            r.db() == database,
            r.name() == name@,
            r.phase() is Scanning,
    {
        BackupSession {
            database,
            name: name.to_owned(),
            phase: Phase::Scanning,
            builder: BackupBuilder::new(),
            stored: 0,
        }
    }

    /// Scans the entries of a walk of `root` against the snapshot of the
    /// same name, if any.  On failure the session fails; either way the
    /// database is unchanged.
    pub fn scan(&mut self, root: &str, entries: &[DirEntry]) -> (r: Result<(), ScanError>)
        requires
            old(self).wf(),
            old(self).phase() is Scanning,
        ensures
            final(self).wf(),
            final(self).db() == old(self).db(),
            final(self).name() == old(self).name(),
            final(self).stored_count() == 0,
            r is Ok ==> final(self).phase() is Storing && scanned(
                final(self).builder(),
                entries@,
                root@,
                prior_of(old(self).db(), old(self).name()),
            ),
            r matches Err(e) ==> final(self).phase() is Failed && final(self).queued().len() == 0
                && scan_failed(e, entries@, root@, prior_of(old(self).db(), old(self).name())),
            (exists|i: int| 0 <= i < entries@.len() && #[trigger] entries@[i] is Special) ==> r is Err,
    {
        let prior = match self.database.get_backup(self.name.as_str()) {
            Some(v) => Some(v.backup()),
            None => None,
        };
        proof {
            if let Some(b) = prior {
                assert(b.wf());
            }
        }
        match scan_dir_into_backup(root, prior, entries) {
            Ok(builder) => {
                self.builder = builder;
                self.phase = Phase::Storing;
                Ok(())
            },
            Err(e) => {
                self.phase = Phase::Failed;
                Err(e)
            },
        }
    }

    /// The next queued file to store, if any is left.
    pub fn next_to_store(&self) -> (r: Option<&NewBackupFile>)
        requires
            self.wf(),
        ensures
            match r {
                Some(f) => self.phase() is Storing && self.stored_count() < self.queued().len()
                    && *f == self.queued()[self.stored_count() as int],
                None => !(self.phase() is Storing) || self.stored_count() == self.queued().len(),
            },
    {
        match self.phase {
            Phase::Storing => {
                if self.stored < self.builder.iter_new_files().len() {
                    Some(&self.builder.iter_new_files()[self.stored])
                } else {
                    None
                }
            },
            _ => None,
        }
    }

    /// Reports whether storing the file that `next_to_store` gave
    /// succeeded.  A failure fails the session; the database is unchanged.
    pub fn stored(&mut self, ok: bool)
        requires
            old(self).wf(),
            old(self).phase() is Storing,
            old(self).stored_count() < old(self).queued().len(),
        ensures
            final(self).wf(),
            final(self).db() == old(self).db(),
            final(self).name() == old(self).name(),
            final(self).queued() == old(self).queued(),
            ok ==> final(self).phase() is Storing && final(self).stored_count() == old(self).stored_count() + 1,
            !ok ==> final(self).phase() is Failed,
    {
        if ok {
            let n = self.builder.iter_new_files().len();
            assert(self.stored < n);
            self.stored = self.stored + 1;
        } else {
            self.phase = Phase::Failed;
        }
    }

    /// Commits the snapshot, once every queued file is stored.  Where the
    /// commit is refused the session fails and the database is unchanged.
    pub fn commit(&mut self) -> (r: Result<(), IntegrityError>)
        requires
            old(self).wf(),
            old(self).phase() is Storing,
            old(self).stored_count() == old(self).queued().len(),
        ensures
            final(self).wf(),
            final(self).name() == old(self).name(),
            match merge_sizes(old(self).db().blocks_view(), old(self).queued()) {
                Some(m) => if blocks_cover(m, old(self).builder().backup()) {
                    &&& r is Ok
                    &&& final(self).phase() is Committed
                    &&& final(self).db().blocks_view() == m
                    &&& final(self).db().backups_view() == old(self).db().backups_view().insert(
                        old(self).name(),
                        old(self).builder().backup(),
                    )
                } else {
                    r is Err && final(self).phase() is Failed && final(self).db() == old(self).db()
                },
                None => r is Err && final(self).phase() is Failed && final(self).db() == old(self).db(),
            },
    {
        let mut builder = BackupBuilder::new();
        std::mem::swap(&mut self.builder, &mut builder);
        let r = self.database.insert_backup_builder(self.name.as_str(), builder);
        self.stored = 0;
        match r {
            Ok(()) => {
                self.phase = Phase::Committed;
            },
            Err(_) => {
                self.phase = Phase::Failed;
            },
        }
        r
    }

    /// The phase the session is in.
    pub fn current_phase(&self) -> (r: &Phase)
        ensures
            *r == self.phase(),
    {
        &self.phase
    }

    /// The database, committed to or not.
    pub fn into_database(self) -> (r: Database)
        requires
            self.wf(),
        ensures
            r == self.db(),
            r.wf(),
    {
        self.database
    }
}

} // verus!
