use vstd::prelude::*;
use vstd::string::*;

verus! {

/// The lock of a vault directory: it is held while the file `lock` exists in
/// that directory.  Taking it creates the file in "must not exist yet" mode,
/// so of two takers at most one succeeds.
pub struct DirectoryLock {
    path: String,
}

/// The lock is held by someone else.
pub struct AlreadyLocked;

/// What came of creating the lock file in "must not exist yet" mode.
pub enum CreateOutcome {
    /// The file was created: the lock is taken.
    Created,
    /// The file already existed.
    AlreadyExists,
    /// Another I/O error, with its text.
    Failed { message: String },
}

/// What a blocking taker does next.
pub enum LockStep {
    /// The lock is taken: stop.
    Acquired,
    /// Wait until the lock file is deleted, then try again.
    WaitForRelease,
    /// Give up with this error.
    Fail { message: String },
}

/// What came of watching the lock file for its deletion.
pub enum WatchOutcome {
    /// The watch is in place.
    Watching,
    /// The lock file was already gone.
    Gone,
    /// Another I/O error, with its text.
    Failed { message: String },
}

/// What a blocking taker does after setting up the watch.
pub enum WatchStep {
    /// Sleep until the watch fires, then try again.
    Sleep,
    /// The holder released the lock meanwhile: try again at once.
    Retry,
    /// Give up with this error.
    Fail { message: String },
}

/// Whether creating a file in "must not exist yet" mode succeeds, given
/// whether it exists: the lock file's state after the attempt, and the
/// outcome.
pub open spec fn create_new(exists: bool) -> (bool, CreateOutcome) {
    if exists {
        (true, CreateOutcome::AlreadyExists)
    } else {
        (true, CreateOutcome::Created)
    }
}

impl DirectoryLock {
    pub closed spec fn path(&self) -> Seq<char> {
        self.path@
    }

    /// The lock of the vault at `vault_dir`.
    pub fn new(vault_dir: &str) -> (r: DirectoryLock)
        ensures
            r.path() == vault_dir@ + seq!['/', 'l', 'o', 'c', 'k'],
    {
        let p = vault_dir.to_owned().concat("/lock");
        proof {
            reveal_strlit("/lock");
        }
        DirectoryLock { path: p }
    }

    /// The path of the lock file.
    pub fn lock_path(&self) -> (r: &str)
        ensures
            r@ == self.path(),
    {
        self.path.as_str()
    }

    /// The result of one attempt to take the lock, from what creating the
    /// lock file gave: taken, held by someone else (not an error), or the
    /// I/O error.
    pub fn nonblocking_lock(&self, outcome: CreateOutcome) -> (r: Result<Result<(), AlreadyLocked>, String>)
        ensures
            match outcome {
                CreateOutcome::Created => r == Ok::<Result<(), AlreadyLocked>, String>(Ok(())),
                CreateOutcome::AlreadyExists => r matches Ok(Err(_)),
                CreateOutcome::Failed { message } => r matches Err(m) && m@ == message@,
            },
    {
        match outcome {
            CreateOutcome::Created => Ok(Ok(())),
            CreateOutcome::AlreadyExists => Ok(Err(AlreadyLocked)),
            CreateOutcome::Failed { message } => Err(message),
        }
    }

    /// The next step of a blocking taker after one attempt: stop when the
    /// lock is taken, wait for the lock file to go and retry when it is held,
    /// fail on any other error.
    pub fn blocking_step(&self, outcome: CreateOutcome) -> (r: LockStep)
        ensures
            match outcome {
                CreateOutcome::Created => r is Acquired,
                CreateOutcome::AlreadyExists => r is WaitForRelease,
                CreateOutcome::Failed { message } => r matches LockStep::Fail { message: m } && m@
                    == message@,
            },
    {
        match self.nonblocking_lock(outcome) {
            Ok(Ok(())) => LockStep::Acquired,
            Ok(Err(AlreadyLocked)) => LockStep::WaitForRelease,
            Err(message) => LockStep::Fail { message },
        }
    }
}

impl DirectoryLock {
    /// The next step of a blocking taker that found the lock held and set up
    /// a watch for the deletion of the lock file: wait on the watch, retry at
    /// once where the file is already gone, fail on any other error.
    pub fn after_watch(&self, outcome: WatchOutcome) -> (r: WatchStep)
        ensures
            match outcome {
                WatchOutcome::Watching => r is Sleep,
                WatchOutcome::Gone => r is Retry,
                WatchOutcome::Failed { message } => r matches WatchStep::Fail { message: m } && m@
                    == message@,
            },
    {
        match outcome {
            WatchOutcome::Watching => WatchStep::Sleep,
            WatchOutcome::Gone => WatchStep::Retry,
            WatchOutcome::Failed { message } => WatchStep::Fail { message },
        }
    }
}

/// Mutual exclusion, over whether the lock file exists.  An attempt while
/// the file exists is told that the lock is held; a successful attempt leaves
/// the file in place, so every later attempt is told the same until the
/// holder deletes the file; once it is deleted, an attempt takes the lock.
/// A blocking taker acquires only on `Created`, which comes only while the
/// file is absent, so a second taker acquires only after the first released.
pub proof fn lemma_lock_exclusive(exists: bool)
    ensures
        create_new(true).1 is AlreadyExists,
        create_new(exists).1 is Created ==> !exists && create_new(exists).0 && create_new(
            create_new(exists).0,
        ).1 is AlreadyExists,
        create_new(false).1 is Created,
{
}

} // verus!
