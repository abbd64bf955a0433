use sharedfileholder::backup::{Backup, BackupBuilder, BackupFile};
use sharedfileholder::database::{DataBlock, DataBlocks, Database, IntegrityError};
use sharedfileholder::util::MTime;

fn digest(b: u8) -> sharedfileholder::util::Hash {
    sharedfileholder::util::Hash::from_bytes([b; 32])
}

fn file(ino: u64, path: &str, b: u8, sec: u64) -> BackupFile {
    BackupFile { ino, path: path.to_string(), hash: digest(b), mtime: MTime::new(sec, 0) }
}

#[test]
fn backup_records_by_inode() {
    let mut b = Backup::new();
    b.insert_file(file(7, "a", 1, 10));
    b.insert_file(file(8, "b", 2, 10));
    b.insert_file(file(7, "c", 3, 11));
    assert_eq!(b.iter_files().len(), 2);
    let f = b.get_file(7).expect("inode 7");
    assert_eq!(f.path, "c");
    assert!(f.hash.same(&digest(3)));
    assert!(b.get_file(9).is_none());
    b.insert_directory("d".to_string());
    b.insert_symlink("l".to_string(), "t".to_string());
    assert_eq!(b.iter_directories(), &["d".to_string()]);
    assert_eq!(b.iter_symlinks(), &[("l".to_string(), "t".to_string())]);
}

#[test]
fn builder_queues_new_files_only() {
    let mut bb = BackupBuilder::new();
    bb.insert_new_file("/src/a".to_string(), "a".to_string(), digest(1), 1, MTime::new(5, 0), 3);
    bb.insert_unchanged_file("b".to_string(), digest(2), 2, MTime::new(5, 0));
    assert_eq!(bb.iter_new_files().len(), 1);
    assert_eq!(bb.iter_new_files()[0].source, "/src/a");
    assert_eq!(bb.iter_new_files()[0].size, 3);
    let (b, queued) = bb.finish();
    assert_eq!(queued.len(), 1);
    assert_eq!(b.iter_files().len(), 2);
}

#[test]
fn commit_adds_blocks_and_snapshot() {
    let mut db = Database::new();
    let mut bb = BackupBuilder::new();
    bb.insert_new_file("/s/a".to_string(), "a".to_string(), digest(1), 1, MTime::new(5, 0), 3);
    bb.insert_new_file("/s/b".to_string(), "b".to_string(), digest(1), 2, MTime::new(5, 0), 3);
    bb.insert_directory("d".to_string());
    assert!(db.insert_backup_builder("s1", bb).is_ok());
    assert_eq!(db.data_blocks().as_slice().len(), 1);
    let block = db.get_data_block(&digest(1)).expect("block");
    assert_eq!(block.size, 3);
    let view = db.get_backup("s1").expect("snapshot s1");
    assert_eq!(view.name(), "s1");
    let f = view.get_file(2).expect("inode 2");
    assert_eq!(f.path(), "b");
    assert_eq!(f.size(), 3);
    assert!(db.get_backup("s2").is_none());
}

#[test]
fn commit_size_mismatch_changes_nothing() {
    let mut db = Database::new();
    let mut bb = BackupBuilder::new();
    bb.insert_new_file("/s/a".to_string(), "a".to_string(), digest(1), 1, MTime::new(5, 0), 3);
    assert!(db.insert_backup_builder("s1", bb).is_ok());
    let mut bb = BackupBuilder::new();
    bb.insert_new_file("/s/a".to_string(), "a".to_string(), digest(1), 1, MTime::new(6, 0), 4);
    match db.insert_backup_builder("s2", bb) {
        Err(IntegrityError::SizeMismatch { recorded, observed, .. }) => {
            assert_eq!(recorded, 3);
            assert_eq!(observed, 4);
        }
        _ => panic!("a size mismatch must be refused"),
    }
    assert!(db.get_backup("s2").is_none());
    assert_eq!(db.iter_backups().len(), 1);
}

#[test]
fn commit_missing_block_is_refused() {
    let mut db = Database::new();
    let mut bb = BackupBuilder::new();
    bb.insert_unchanged_file("a".to_string(), digest(9), 1, MTime::new(5, 0));
    match db.insert_backup_builder("s1", bb) {
        Err(IntegrityError::MissingBlock { ino, .. }) => assert_eq!(ino, 1),
        _ => panic!("a file without a block must be refused"),
    }
    assert!(db.iter_backups().is_empty());
    assert!(db.data_blocks().as_slice().is_empty());
}

#[test]
fn commit_replaces_snapshot_of_same_name() {
    let mut db = Database::new();
    let mut bb = BackupBuilder::new();
    bb.insert_new_file("/s/a".to_string(), "a".to_string(), digest(1), 1, MTime::new(5, 0), 3);
    assert!(db.insert_backup_builder("s1", bb).is_ok());
    let mut bb = BackupBuilder::new();
    bb.insert_directory("only".to_string());
    assert!(db.insert_backup_builder("s1", bb).is_ok());
    assert_eq!(db.iter_backups().len(), 1);
    let view = db.get_backup("s1").expect("s1");
    assert_eq!(view.backup().iter_files().len(), 0);
    assert_eq!(view.backup().iter_directories().len(), 1);
}

#[test]
fn round_trip() {
    let mut db = Database::new();
    let mut bb = BackupBuilder::new();
    bb.insert_new_file("/s/a".to_string(), "a/file1".to_string(), digest(1), 1, MTime::new(5, 0), 1);
    bb.insert_directory("a/dir".to_string());
    bb.insert_symlink("a/link".to_string(), "file1".to_string());
    assert!(db.insert_backup_builder("s1", bb).is_ok());

    let mut backups = Vec::new();
    for (name, b) in db.iter_backups() {
        let files: Vec<BackupFile> = b.iter_files().iter().map(|f| f.duplicate()).collect();
        let rebuilt = Backup::from_parts(files, b.iter_directories().to_vec(), b.iter_symlinks().to_vec());
        backups.push((name.clone(), rebuilt));
    }
    let blocks: Vec<DataBlock> = db.data_blocks().as_slice().to_vec();
    let loaded = match Database::from_parts(backups, blocks) {
        Ok(d) => d,
        Err(_) => panic!("parts of a database must load"),
    };
    let view = loaded.get_backup("s1").expect("s1");
    let f = view.get_file(1).expect("inode 1");
    assert_eq!(f.path(), "a/file1");
    assert!(f.hash().same(&digest(1)));
    assert_eq!(f.size(), 1);
    assert_eq!(view.backup().iter_directories(), &["a/dir".to_string()]);
    assert_eq!(view.backup().iter_symlinks(), &[("a/link".to_string(), "file1".to_string())]);
}

#[test]
fn load_refuses_bad_parts() {
    let b1 = Backup::from_parts(vec![file(1, "a", 1, 1)], vec![], vec![]);
    let r = Database::from_parts(vec![("s".to_string(), b1)], vec![]);
    assert!(matches!(r, Err(IntegrityError::MissingBlock { .. })));
    let r = Database::from_parts(
        vec![("s".to_string(), Backup::new()), ("s".to_string(), Backup::new())],
        vec![],
    );
    assert!(matches!(r, Err(IntegrityError::DuplicateName { .. })));
    let r = Database::from_parts(
        vec![],
        vec![DataBlock { hash: digest(1), size: 1 }, DataBlock { hash: digest(1), size: 2 }],
    );
    assert!(matches!(r, Err(IntegrityError::SizeMismatch { .. })));
    let ok = DataBlocks::from_blocks(&[DataBlock { hash: digest(1), size: 1 }, DataBlock { hash: digest(1), size: 1 }]);
    match ok {
        Ok(t) => assert_eq!(t.as_slice().len(), 1),
        Err(_) => panic!("repeated agreeing blocks load"),
    }
}

#[test]
fn repeated_paths_are_kept_once() {
    let mut b = Backup::new();
    b.insert_directory("d".to_string());
    b.insert_directory("e".to_string());
    b.insert_directory("d".to_string());
    assert_eq!(b.iter_directories(), &["d".to_string(), "e".to_string()]);
    b.insert_symlink("l".to_string(), "t1".to_string());
    b.insert_symlink("m".to_string(), "t2".to_string());
    b.insert_symlink("l".to_string(), "t3".to_string());
    assert_eq!(
        b.iter_symlinks(),
        &[("l".to_string(), "t3".to_string()), ("m".to_string(), "t2".to_string())]
    );
    let many: Vec<String> = (0..500).map(|i| format!("dir{i}")).collect();
    let mut twice = many.clone();
    twice.extend(many.iter().cloned());
    let rebuilt = Backup::from_parts(vec![], twice, vec![]);
    assert_eq!(rebuilt.iter_directories(), many.as_slice());
}

#[test]
fn hard_links_collapse_to_one_record() {
    let mut b = Backup::new();
    b.insert_file(file(5, "a", 1, 1));
    b.insert_file(file(5, "b", 1, 1));
    assert_eq!(b.iter_files().len(), 1);
    assert_eq!(b.get_file(5).expect("inode 5").path, "b");
}

#[test]
fn names_in_name_order() {
    let mut db = Database::new();
    for name in ["s2", "s1", "s2", "b", "B", "ab", "a", "\u{e9}"] {
        let mut bb = BackupBuilder::new();
        bb.insert_directory(name.to_string());
        assert!(db.insert_backup_builder(name, bb).is_ok());
    }
    let names: Vec<&str> = db.iter_backups().iter().map(|(n, _)| n.as_str()).collect();
    let mut sorted = names.clone();
    sorted.sort();
    assert_eq!(names, sorted);
    assert_eq!(names, vec!["B", "a", "ab", "b", "s1", "s2", "\u{e9}"]);
    assert!(db.get_backup("ab").is_some());
    assert!(db.get_backup("c").is_none());
}
