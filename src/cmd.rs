use vstd::prelude::*;

use crate::database::{names_sorted, Database};

verus! {

/// Options that every subcommand takes.
pub struct GlobalArgs {
    /// The vault directory, where one is given.
    pub vault_dir: Option<String>,
}

/// The arguments of the backup subcommand.
pub struct CliArgs {
    pub backup_name: String,
    pub backup_source_dir: String,
}

/// The arguments of the list subcommand.
pub struct ListArgs {
    pub backup_name: Option<String>,
    pub full: bool,
}

/// The arguments of the mount subcommand.
pub struct MountArgs {
    pub backup_name: String,
    pub mount_point: String,
}

/// The subcommands.
pub enum SubCmd {
    Init,
    Backup(CliArgs),
    List(ListArgs),
    Mount(MountArgs),
}

/// A parsed command line.
pub struct Cli {
    pub global_args: GlobalArgs,
    pub subcommand: SubCmd,
}

/// What a command line asks for, with the vault directory settled.
pub enum Command {
    Init { vault_dir: String },
    Backup { vault_dir: String, backup_name: String, source_dir: String },
    List { vault_dir: String, selected: Option<String>, full: bool },
    Mount { vault_dir: String, backup_name: String, mount_point: String },
}

/// The vault directory: the one given, else the one that the environment
/// names, else the working directory.
pub open spec fn vault_dir_of(
    given: Option<String>,
    env_dir: Option<String>,
    cwd: String,
) -> String {
    match given {
        Some(d) => d,
        None => match env_dir {
            Some(d) => d,
            None => cwd,
        },
    }
}

/// Settles a command line into a command.  `env_dir` is the vault directory
/// that the environment names, if any, and `cwd` the working directory.
pub fn run(cli: Cli, env_dir: Option<String>, cwd: String) -> (r: Command)
    ensures
        ({
            let v = vault_dir_of(cli.global_args.vault_dir, env_dir, cwd);
            match cli.subcommand {
                SubCmd::Init => r == Command::Init { vault_dir: v },
                SubCmd::Backup(a) => r == Command::Backup {
                    vault_dir: v,
                    backup_name: a.backup_name,
                    source_dir: a.backup_source_dir,
                },
                SubCmd::List(a) => r == Command::List {
                    vault_dir: v,
                    selected: a.backup_name,
                    full: a.full,
                },
                SubCmd::Mount(a) => r == Command::Mount {
                    vault_dir: v,
                    backup_name: a.backup_name,
                    mount_point: a.mount_point,
                },
            }
        }),
{
    let vault_dir = match cli.global_args.vault_dir {
        Some(d) => d,
        None => match env_dir {
            Some(d) => d,
            None => cwd,
        },
    };
    match cli.subcommand {
        SubCmd::Init => Command::Init { vault_dir },
        SubCmd::Backup(a) => Command::Backup {
            vault_dir,
            backup_name: a.backup_name,
            source_dir: a.backup_source_dir,
        },
        SubCmd::List(a) => Command::List { vault_dir, selected: a.backup_name, full: a.full },
        SubCmd::Mount(a) => Command::Mount {
            vault_dir,
            backup_name: a.backup_name,
            mount_point: a.mount_point,
        },
    }
}

/// One line of a listing of a vault's snapshots.
pub enum ListLine {
    /// The vault holds no snapshot.
    NoBackups,
    /// The heading above the snapshots.
    Heading,
    /// A snapshot's name.
    Name(String),
    /// How many files the snapshot holds (not shown when zero).
    Files(usize),
    /// How many directories it holds (not shown when zero).
    Directories(usize),
    /// How many symlinks it holds (not shown when zero).
    Symlinks(usize),
}

/// The counts of one snapshot as listed: files, directories, symlinks, each
/// only where it is not zero.
pub open spec fn count_lines(n_files: nat, n_dirs: nat, n_links: nat) -> Seq<ListLine> {
    (if n_files > 0 { seq![ListLine::Files(n_files as usize)] } else { Seq::empty() }) + (if n_dirs
        > 0 {
        seq![ListLine::Directories(n_dirs as usize)]
    } else {
        Seq::empty()
    }) + (if n_links > 0 {
        seq![ListLine::Symlinks(n_links as usize)]
    } else {
        Seq::empty()
    })
}

/// The lines of the snapshots of `s`, in order: each one's name, then its
/// counts.
pub open spec fn backup_lines(s: Seq<(String, crate::backup::Backup)>) -> Seq<ListLine>
    decreases s.len(),
{
    if s.len() == 0 {
        Seq::empty()
    } else {
        backup_lines(s.drop_last()) + seq![ListLine::Name(s.last().0)] + count_lines(
            s.last().1.file_list().len(),
            s.last().1.dir_list().len(),
            s.last().1.link_list().len(),
        )
    }
}

/// The listing of the snapshots of `db`: a line saying that there is none,
/// or a heading, then for each snapshot its name and its non-zero counts of
/// files, directories and symlinks.  Snapshots come in name order: the
/// database keeps them sorted by name.
pub fn list(db: &Database) -> (r: Vec<ListLine>)
    requires
        db.wf(),
    ensures
        names_sorted(db.backup_list()),
        r@ == if db.backup_list().len() == 0 {
            seq![ListLine::NoBackups]
        } else {
            seq![ListLine::Heading] + backup_lines(db.backup_list())
        },
{
    let backups = db.iter_backups();
    let mut lines: Vec<ListLine> = Vec::new();
    if backups.len() == 0 {
        lines.push(ListLine::NoBackups);
        proof {
            assert(lines@ =~= seq![ListLine::NoBackups]);
        }
        return lines;
    }
    lines.push(ListLine::Heading);
    let mut i: usize = 0;
    proof {
        assert(backups@.take(0) =~= Seq::<(String, crate::backup::Backup)>::empty());
        assert(lines@ =~= seq![ListLine::Heading] + backup_lines(backups@.take(0)));
    }
    while i < backups.len()
        invariant
            backups@ == db.backup_list(),
            forall|k: int| 0 <= k < backups@.len() ==> (#[trigger] backups@[k]).1.wf(),
            i <= backups@.len(),
            lines@ == seq![ListLine::Heading] + backup_lines(backups@.take(i as int)),
        decreases backups@.len() - i,
    {
        let entry = &backups[i];
        let ghost before = lines@;
        lines.push(ListLine::Name(entry.0.clone()));
        let n_files = entry.1.iter_files().len();
        let n_dirs = entry.1.iter_directories().len();
        let n_links = entry.1.iter_symlinks().len();
        let ghost mid = lines@;
        if n_files > 0 {
            lines.push(ListLine::Files(n_files));
        }
        if n_dirs > 0 {
            lines.push(ListLine::Directories(n_dirs));
        }
        if n_links > 0 {
            lines.push(ListLine::Symlinks(n_links));
        }
        proof {
            let t = backups@.take(i as int + 1);
            assert(t.drop_last() =~= backups@.take(i as int));
            assert(t.last() == backups@[i as int]);
            assert(lines@ =~= mid + count_lines(n_files as nat, n_dirs as nat, n_links as nat));
            assert(lines@ =~= seq![ListLine::Heading] + backup_lines(t));
        }
        i = i + 1;
    }
    proof {
        assert(backups@.take(backups@.len() as int) =~= backups@);
    }
    lines
}

} // verus!
