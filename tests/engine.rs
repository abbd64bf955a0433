use sharedfileholder::backup::BackupBuilder;
use sharedfileholder::cmd::{list, run, Cli, CliArgs, Command, GlobalArgs, ListLine, SubCmd};
use sharedfileholder::database::Database;
use sharedfileholder::scan::{scan_dir_into_backup, BackupState, DirEntry, FileCheck, ScanError};
use sharedfileholder::session::{BackupSession, Phase};
use sharedfileholder::storage::Storage;
use sharedfileholder::util::MTime;

fn digest(b: u8) -> sharedfileholder::util::Hash {
    sharedfileholder::util::Hash::from_bytes([b; 32])
}

fn blake3_of(bytes: &[u8]) -> sharedfileholder::util::Hash {
    sharedfileholder::util::Hash::from_bytes(*blake3::hash(bytes).as_bytes())
}

#[test]
fn relative_paths() {
    let e = DirEntry::Directory { path: "./src/a/b".to_string() };
    assert_eq!(e.path(), "./src/a/b");
    assert_eq!(e.path_relative_to("./src").as_deref(), Some("a/b"));
    assert_eq!(e.path_relative_to("./src/").as_deref(), Some("a/b"));
    assert_eq!(e.path_relative_to("./sr"), None);
    assert_eq!(e.path_relative_to("./src/a/b"), None);
    assert_eq!(e.path_relative_to("/other"), None);
}

#[test]
fn special_file_rejection() {
    let entries = vec![
        DirEntry::Directory { path: "/t/a".to_string() },
        DirEntry::Special { path: "/t/a/sock".to_string() },
        DirEntry::File { path: "/t/a/f".to_string(), ino: 3, mtime: MTime::new(1, 0), size: 1 },
    ];
    match scan_dir_into_backup("/t", None, &entries) {
        Err(ScanError::SpecialFile { path }) => assert_eq!(path, "/t/a/sock"),
        _ => panic!("a special file must abort the scan"),
    }
    let db = Database::new();
    assert!(db.iter_backups().is_empty());
}

#[test]
fn entry_outside_root_is_error() {
    let entries = vec![DirEntry::Directory { path: "/elsewhere/a".to_string() }];
    assert!(matches!(scan_dir_into_backup("/t", None, &entries), Err(ScanError::OutsideRoot { .. })));
}

#[test]
fn unreadable_new_file_is_io_error() {
    let entries = vec![DirEntry::File {
        path: "/nonexistent/t/f".to_string(),
        ino: 3,
        mtime: MTime::new(1, 0),
        size: 1,
    }];
    assert!(matches!(scan_dir_into_backup("/nonexistent/t", None, &entries), Err(ScanError::Io { .. })));
}

fn prior_snapshot() -> Database {
    let mut db = Database::new();
    let mut bb = BackupBuilder::new();
    bb.insert_new_file("/t/f".to_string(), "f".to_string(), digest(1), 42, MTime::new(100, 0), 5);
    assert!(db.insert_backup_builder("s", bb).is_ok());
    db
}

#[test]
fn change_detection_unchanged_mtime() {
    let db = prior_snapshot();
    let view = db.get_backup("s").expect("s");
    let state = BackupState::new("/t", Some(view.backup()));
    match state.check_file(42, MTime::new(100, 0)) {
        FileCheck::Unchanged(h) => assert!(h.same(&digest(1))),
        FileCheck::NeedsHash => panic!("same mtime must reuse the digest"),
    }
    match state.check_file(42, MTime::new(99, 999)) {
        FileCheck::Unchanged(h) => assert!(h.same(&digest(1))),
        FileCheck::NeedsHash => panic!("older mtime must reuse the digest"),
    }
    assert!(matches!(state.check_file(42, MTime::new(100, 1)), FileCheck::NeedsHash));
}

#[test]
fn change_detection_touched_same_content() {
    let db = prior_snapshot();
    let view = db.get_backup("s").expect("s");
    let mut state = BackupState::new("/t", Some(view.backup()));
    state.record_hashed_file("/t/f".to_string(), "f".to_string(), 42, MTime::new(200, 0), 5, digest(1));
    let bb = state.finish();
    assert!(bb.iter_new_files().is_empty());
    let (b, _) = bb.finish();
    let f = b.get_file(42).expect("inode 42");
    assert!(f.hash.same(&digest(1)));
    assert_eq!(f.mtime, MTime::new(200, 0));
}

#[test]
fn change_detection_changed_content() {
    let db = prior_snapshot();
    let view = db.get_backup("s").expect("s");
    let mut state = BackupState::new("/t", Some(view.backup()));
    state.record_hashed_file("/t/f".to_string(), "f".to_string(), 42, MTime::new(200, 0), 6, digest(2));
    let bb = state.finish();
    assert_eq!(bb.iter_new_files().len(), 1);
    assert!(bb.iter_new_files()[0].hash.same(&digest(2)));
}

#[test]
fn new_inode_path() {
    let db = prior_snapshot();
    let view = db.get_backup("s").expect("s");
    let state = BackupState::new("/t", Some(view.backup()));
    assert!(matches!(state.check_file(43, MTime::new(0, 0)), FileCheck::NeedsHash));
    let fresh = BackupState::new("/t", None);
    assert!(matches!(fresh.check_file(42, MTime::new(0, 0)), FileCheck::NeedsHash));
    let mut state = BackupState::new("/t", Some(view.backup()));
    state.record_hashed_file("/t/g".to_string(), "g".to_string(), 43, MTime::new(0, 0), 5, digest(1));
    assert_eq!(state.finish().iter_new_files().len(), 1);
}

#[test]
fn concrete_scenario() {
    let x = blake3_of(b"x");
    let mut db = Database::new();
    let store = Storage::new("/v");

    let mut state = BackupState::new("/src", None);
    let dir = DirEntry::Directory { path: "/src/a".to_string() };
    assert!(state.backup_single_dir_entry(&dir).is_ok());
    let sub = DirEntry::Directory { path: "/src/a/dir".to_string() };
    assert!(state.backup_single_dir_entry(&sub).is_ok());
    let link = DirEntry::Symlink { path: "/src/a/link".to_string(), target: "file1".to_string() };
    assert!(state.backup_single_dir_entry(&link).is_ok());
    assert!(matches!(state.check_file(11, MTime::new(50, 0)), FileCheck::NeedsHash));
    state.record_hashed_file("/src/a/file1".to_string(), "a/file1".to_string(), 11, MTime::new(50, 0), 1, x);
    let bb = state.finish();
    let queued: Vec<(String, String)> = bb
        .iter_new_files()
        .iter()
        .map(|n| (n.source.clone(), store.path_of(&n.hash)))
        .collect();
    assert_eq!(queued.len(), 1);
    assert_eq!(queued[0].1, format!("/v/data/{}/{}", &x.to_hex()[..2], x.to_hex()));
    assert!(db.insert_backup_builder("s1", bb).is_ok());

    let view = db.get_backup("s1").expect("s1");
    let b = view.backup();
    assert_eq!(b.iter_files().len(), 1);
    assert_eq!(b.iter_files()[0].path, "a/file1");
    assert!(b.iter_files()[0].hash.same(&x));
    assert_eq!(b.iter_directories(), &["a".to_string(), "a/dir".to_string()]);
    assert_eq!(b.iter_symlinks(), &[("a/link".to_string(), "file1".to_string())]);
    assert_eq!(db.data_blocks().as_slice().len(), 1);

    // The second run sees the same inode and mtime: no hashing, nothing queued.
    let entries = vec![
        DirEntry::Directory { path: "/src/a".to_string() },
        DirEntry::File { path: "/src/a/file1".to_string(), ino: 11, mtime: MTime::new(50, 0), size: 1 },
        DirEntry::Directory { path: "/src/a/dir".to_string() },
        DirEntry::Symlink { path: "/src/a/link".to_string(), target: "file1".to_string() },
    ];
    let bb = match scan_dir_into_backup("/src", Some(b), &entries) {
        Ok(bb) => bb,
        Err(_) => panic!("unchanged rescan must succeed"),
    };
    assert!(bb.iter_new_files().is_empty());
    assert!(db.insert_backup_builder("s1", bb).is_ok());
    let f = db.get_backup("s1").expect("s1").get_file(11).expect("inode 11");
    assert!(f.hash().same(&x));
    assert_eq!(db.iter_backups().len(), 1);
}

#[test]
fn run_settles_vault_dir() {
    let cli = Cli {
        global_args: GlobalArgs { vault_dir: None },
        subcommand: SubCmd::Backup(CliArgs {
            backup_name: "s1".to_string(),
            backup_source_dir: "./src".to_string(),
        }),
    };
    match run(cli, Some("/env".to_string()), "/cwd".to_string()) {
        Command::Backup { vault_dir, backup_name, source_dir } => {
            assert_eq!(vault_dir, "/env");
            assert_eq!(backup_name, "s1");
            assert_eq!(source_dir, "./src");
        }
        _ => panic!("backup expected"),
    }
    let cli = Cli { global_args: GlobalArgs { vault_dir: Some("/given".to_string()) }, subcommand: SubCmd::Init };
    assert!(matches!(run(cli, Some("/env".to_string()), "/cwd".to_string()), Command::Init { vault_dir } if vault_dir == "/given"));
    let cli = Cli { global_args: GlobalArgs { vault_dir: None }, subcommand: SubCmd::Init };
    assert!(matches!(run(cli, None, "/cwd".to_string()), Command::Init { vault_dir } if vault_dir == "/cwd"));
}

#[test]
fn listing() {
    let db = Database::new();
    let lines = list(&db);
    assert_eq!(lines.len(), 1);
    assert!(matches!(lines[0], ListLine::NoBackups));
    let mut db = Database::new();
    let mut bb = BackupBuilder::new();
    bb.insert_new_file("/s/a".to_string(), "a".to_string(), digest(1), 1, MTime::new(5, 0), 3);
    bb.insert_directory("d".to_string());
    assert!(db.insert_backup_builder("s1", bb).is_ok());
    let lines = list(&db);
    assert_eq!(lines.len(), 4);
    assert!(matches!(lines[0], ListLine::Heading));
    assert!(matches!(&lines[1], ListLine::Name(n) if n == "s1"));
    assert!(matches!(lines[2], ListLine::Files(1)));
    assert!(matches!(lines[3], ListLine::Directories(1)));
}

#[test]
fn session_special_file_commits_nothing() {
    let db = prior_snapshot();
    let mut session = BackupSession::new(db, "s");
    let entries = vec![
        DirEntry::File { path: "/t/f".to_string(), ino: 42, mtime: MTime::new(100, 0), size: 5 },
        DirEntry::Special { path: "/t/dev".to_string() },
    ];
    assert!(matches!(session.scan("/t", &entries), Err(ScanError::SpecialFile { .. })));
    assert!(matches!(session.current_phase(), Phase::Failed));
    assert!(session.next_to_store().is_none());
    let db = session.into_database();
    assert_eq!(db.iter_backups().len(), 1);
    assert_eq!(db.get_backup("s").expect("s").backup().iter_files().len(), 1);
}

#[test]
fn session_unchanged_rescan_commits() {
    let db = prior_snapshot();
    let mut session = BackupSession::new(db, "s");
    let entries = vec![
        DirEntry::File { path: "/t/f".to_string(), ino: 42, mtime: MTime::new(100, 0), size: 5 },
        DirEntry::Directory { path: "/t/d".to_string() },
    ];
    assert!(session.scan("/t", &entries).is_ok());
    assert!(session.next_to_store().is_none());
    assert!(session.commit().is_ok());
    assert!(matches!(session.current_phase(), Phase::Committed));
    let db = session.into_database();
    let view = db.get_backup("s").expect("s");
    assert_eq!(view.backup().iter_directories(), &["d".to_string()]);
}

#[test]
fn session_uncommitted_leaves_database() {
    let mut session = BackupSession::new(Database::new(), "n");
    let entries = vec![DirEntry::Directory { path: "/t/d".to_string() }];
    assert!(session.scan("/t", &entries).is_ok());
    assert!(matches!(session.current_phase(), Phase::Storing));
    assert!(session.next_to_store().is_none());
    let db = session.into_database();
    assert!(db.iter_backups().is_empty());
}

#[test]
fn session_unreadable_file_fails() {
    let mut session = BackupSession::new(Database::new(), "n");
    let entries = vec![DirEntry::File {
        path: "/nonexistent/t/f".to_string(),
        ino: 1,
        mtime: MTime::new(1, 0),
        size: 1,
    }];
    assert!(matches!(session.scan("/nonexistent/t", &entries), Err(ScanError::Io { .. })));
    assert!(matches!(session.current_phase(), Phase::Failed));
    assert!(session.next_to_store().is_none());
    assert!(session.into_database().iter_backups().is_empty());
}

#[test]
fn scan_records_every_entry() {
    let entries = vec![
        DirEntry::Directory { path: "/t/a".to_string() },
        DirEntry::Directory { path: "/t/a/b".to_string() },
        DirEntry::Symlink { path: "/t/a/l".to_string(), target: "../x".to_string() },
    ];
    let bb = match scan_dir_into_backup("/t", None, &entries) {
        Ok(bb) => bb,
        Err(_) => panic!("directories and symlinks scan"),
    };
    assert!(bb.iter_new_files().is_empty());
    let (b, _) = bb.finish();
    assert_eq!(b.iter_directories(), &["a".to_string(), "a/b".to_string()]);
    assert_eq!(b.iter_symlinks(), &[("a/l".to_string(), "../x".to_string())]);
}

#[test]
fn scan_error_is_first_failing_entry() {
    let entries = vec![
        DirEntry::Directory { path: "/t/a".to_string() },
        DirEntry::Directory { path: "/elsewhere".to_string() },
        DirEntry::Special { path: "/t/sock".to_string() },
    ];
    match scan_dir_into_backup("/t", None, &entries) {
        Err(ScanError::OutsideRoot { path }) => assert_eq!(path, "/elsewhere"),
        _ => panic!("the first failing entry decides"),
    }
}

#[test]
fn listing_in_name_order() {
    let mut db = Database::new();
    for name in ["b", "a"] {
        let mut bb = BackupBuilder::new();
        bb.insert_directory("d".to_string());
        assert!(db.insert_backup_builder(name, bb).is_ok());
    }
    let names: Vec<String> = list(&db)
        .into_iter()
        .filter_map(|l| match l {
            ListLine::Name(n) => Some(n),
            _ => None,
        })
        .collect();
    assert_eq!(names, vec!["a".to_string(), "b".to_string()]);
}
