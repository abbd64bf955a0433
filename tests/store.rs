use sharedfileholder::backup::{Backup, BackupFile};
use sharedfileholder::mount::{mount_plan, MountStep};
use sharedfileholder::lock::{CreateOutcome, DirectoryLock, LockStep, WatchOutcome, WatchStep};
use sharedfileholder::storage::{Storage, StoreStep};
use sharedfileholder::util::MTime;

fn digest(b: u8) -> sharedfileholder::util::Hash {
    sharedfileholder::util::Hash::from_bytes([b; 32])
}

#[test]
fn hex_of_digest() {
    let h = digest(0xab);
    assert_eq!(h.to_hex(), "ab".repeat(32));
    let mut bytes = [0u8; 32];
    bytes[0] = 0x01;
    bytes[31] = 0xf0;
    let h = sharedfileholder::util::Hash::from_bytes(bytes);
    let hex = h.to_hex();
    assert!(hex.starts_with("01"));
    assert!(hex.ends_with("f0"));
    assert_eq!(hex.len(), 64);
}

#[test]
fn hex_parse_round_trip() {
    let h = digest(0x5c);
    let back = sharedfileholder::util::Hash::from_hex(&h.to_hex()).expect("valid hex");
    assert!(back.same(&h));
    let upper = "5C".repeat(32);
    let back = sharedfileholder::util::Hash::from_hex(&upper).expect("upper case hex");
    assert!(back.same(&h));
    assert!(sharedfileholder::util::Hash::from_hex("5c").is_none());
    assert!(sharedfileholder::util::Hash::from_hex(&"zz".repeat(32)).is_none());
}

#[test]
fn digest_matches_blake3() {
    let expected = blake3::hash(b"x");
    let h = sharedfileholder::util::Hash::from_bytes(*expected.as_bytes());
    assert_eq!(h.to_hex(), expected.to_hex().as_str());
    assert_eq!(h.to_bytes(), *expected.as_bytes());
}

#[test]
fn hash_of_missing_file_is_error() {
    assert!(sharedfileholder::util::Hash::of_file("/nonexistent/dir/file").is_err());
}

#[test]
fn digest_equality() {
    assert!(digest(1).same(&digest(1)));
    assert!(!digest(1).same(&digest(2)));
}

#[test]
fn mtime_order() {
    let a = MTime::new(10, 5);
    let b = MTime::new(10, 6);
    let c = MTime::new(11, 0);
    assert!(a.not_after(&a));
    assert!(a.not_after(&b));
    assert!(!b.not_after(&a));
    assert!(b.not_after(&c));
    assert!(!c.not_after(&b));
}

#[test]
fn content_path_is_sharded() {
    let s = Storage::new("/vault");
    let h = digest(0x3f);
    let hex = "3f".repeat(32);
    assert_eq!(s.path_of(&h), format!("/vault/data/3f/{hex}"));
    assert_eq!(s.shard_of(&h), "/vault/data/3f");
}

#[test]
fn dedup_idempotence() {
    let s = Storage::new("/vault");
    let h = digest(0x11);
    let dest = s.path_of(&h);
    let first = s.insert_file("/src/a", &h, false, false);
    assert_eq!(first.len(), 3);
    match &first[0] {
        StoreStep::CreateDir { path } => assert_eq!(path, "/vault/data/11"),
        _ => panic!("expected a directory step"),
    }
    match &first[1] {
        StoreStep::Copy { from, to } => {
            assert_eq!(from, "/src/a");
            assert_eq!(to, &format!("{dest}.tmp"));
        }
        _ => panic!("expected a copy step"),
    }
    match &first[2] {
        StoreStep::Rename { from, to } => {
            assert_eq!(from, &format!("{dest}.tmp"));
            assert_eq!(to, &dest);
        }
        _ => panic!("expected a rename step"),
    }
    let second = s.insert_file("/src/a", &h, true, true);
    assert!(second.is_empty());
    let shard_there = s.insert_file("/src/b", &h, false, true);
    assert_eq!(shard_there.len(), 2);
}

#[test]
fn lock_path_and_outcomes() {
    let l = DirectoryLock::new("/vault");
    assert_eq!(l.lock_path(), "/vault/lock");
    assert!(matches!(l.nonblocking_lock(CreateOutcome::Created), Ok(Ok(()))));
    assert!(matches!(l.nonblocking_lock(CreateOutcome::AlreadyExists), Ok(Err(_))));
    match l.nonblocking_lock(CreateOutcome::Failed { message: "denied".to_string() }) {
        Err(m) => assert_eq!(m, "denied"),
        _ => panic!("an I/O error must be an error"),
    }
}

#[test]
fn lock_exclusivity() {
    let l = DirectoryLock::new("/vault");
    assert!(matches!(l.blocking_step(CreateOutcome::Created), LockStep::Acquired));
    assert!(matches!(l.blocking_step(CreateOutcome::AlreadyExists), LockStep::WaitForRelease));
    match l.blocking_step(CreateOutcome::Failed { message: "io".to_string() }) {
        LockStep::Fail { message } => assert_eq!(message, "io"),
        _ => panic!("an I/O error must fail"),
    }
}

#[test]
fn mount_layout() {
    let h = digest(0x2a);
    let hex = h.to_hex();
    let b = Backup::from_parts(
        vec![BackupFile { ino: 1, path: "a/file1".to_string(), hash: h, mtime: MTime::new(1, 0) }],
        vec!["a".to_string(), "a/dir".to_string()],
        vec![("a/link".to_string(), "file1".to_string())],
    );
    let s = Storage::new("/v");
    let steps = match mount_plan(&s, &b, "m", "/w") {
        Ok(steps) => steps,
        Err(_) => panic!("a plain snapshot can be mounted"),
    };
    assert_eq!(steps.len(), 4);
    assert!(matches!(&steps[0], MountStep::CreateDirAll { path } if path == "m/a"));
    assert!(matches!(&steps[1], MountStep::CreateDirAll { path } if path == "m/a/dir"));
    match &steps[2] {
        MountStep::Symlink { target, link } => {
            assert_eq!(link, "/w/m/a/file1");
            assert_eq!(target, &format!("../../../v/data/2a/{hex}"));
        }
        _ => panic!("expected the link of a/file1"),
    }
    assert!(matches!(&steps[3], MountStep::Symlink { target, link } if target == "file1" && link == "m/a/link"));
    let steps = match mount_plan(&s, &b, "/m/./x/..", "/w") {
        Ok(steps) => steps,
        Err(_) => panic!("a plain snapshot can be mounted"),
    };
    match &steps[2] {
        MountStep::Symlink { target, link } => {
            assert_eq!(link, "/m/a/file1");
            assert_eq!(target, &format!("../../v/data/2a/{hex}"));
        }
        _ => panic!("expected the link of a/file1"),
    }
}

#[test]
fn watch_steps() {
    let l = DirectoryLock::new("/vault");
    assert!(matches!(l.after_watch(WatchOutcome::Watching), WatchStep::Sleep));
    assert!(matches!(l.after_watch(WatchOutcome::Gone), WatchStep::Retry));
    match l.after_watch(WatchOutcome::Failed { message: "e".to_string() }) {
        WatchStep::Fail { message } => assert_eq!(message, "e"),
        _ => panic!("an error must fail"),
    }
}
