use path_absolutize::Absolutize;
use vstd::prelude::*;
use vstd::string::*;

use crate::backup::Backup;
use crate::storage::{content_path, Storage};

verus! {

/// The absolute form of `path` taken from the absolute directory `cwd`, with
/// `.` and `..` resolved lexically.
pub uninterp spec fn absolutized(path: Seq<char>, cwd: Seq<char>) -> Seq<char>;

/// The relative path that leads from directory `base` to `path`, where there
/// is one.
pub uninterp spec fn path_diff(path: Seq<char>, base: Seq<char>) -> Option<Seq<char>>;

/// The parent directory of `path`, where it has one.
pub uninterp spec fn parent_of(path: Seq<char>) -> Option<Seq<char>>;

/// Relies on `path_absolutize::Absolutize::absolutize_from` (Unix): it
/// resolves the path lexically against `cwd` without touching the file
/// system and always returns `Ok`.  `cwd` must be absolute: with a relative
/// one the function can fail an internal assertion.
#[verifier::external_body]
fn absolutize_from(path: &str, cwd: &str) -> (r: String)
    requires
        cwd@.len() > 0,
        cwd@[0] == '/',
    ensures
        r@ == absolutized(path@, cwd@),
{
    match std::path::Path::new(path).absolutize_from(cwd) {
        Ok(p) => p.to_string_lossy().into_owned(),
        Err(_) => String::new(),
    }
}

/// Relies on `pathdiff::diff_paths`: the relative path from `base` to
/// `path`, computed from their components alone.
#[verifier::external_body]
fn diff_paths(path: &str, base: &str) -> (r: Option<String>)
    ensures
        match r {
            Some(s) => path_diff(path@, base@) == Some(s@),
            None => path_diff(path@, base@) is None,
        },
{
    pathdiff::diff_paths(path, base).map(|p| p.to_string_lossy().into_owned())
}

/// Relies on `std::path::Path::parent`: the path without its last
/// component, computed from the text alone.
#[verifier::external_body]
fn parent(path: &str) -> (r: Option<String>)
    ensures
        match r {
            Some(s) => parent_of(path@) == Some(s@),
            None => parent_of(path@) is None,
        },
{
    std::path::Path::new(path).parent().map(|p| p.to_string_lossy().into_owned())
}

/// `rel` below the directory `base`.
pub open spec fn join(base: Seq<char>, rel: Seq<char>) -> Seq<char> {
    if base.len() > 0 && base.last() == '/' {
        base + rel
    } else {
        base + seq!['/'] + rel
    }
}

fn join_path(base: &str, rel: &str) -> (r: String)
    ensures
        r@ == join(base@, rel@),
{
    let n = base.unicode_len();
    let mut s = base.to_owned();
    if n > 0 && base.get_char(n - 1) == '/' {
        s.append(rel);
    } else {
        s.append("/");
        proof {
            reveal_strlit("/");
        }
        s.append(rel);
    }
    s
}

/// One step of materializing a snapshot as links.
pub enum MountStep {
    /// Create the directory `path` and its missing parents.
    CreateDirAll { path: String },
    /// Create a symlink at `link` that points at `target`.
    Symlink { target: String, link: String },
}

/// A step by the paths that it names.
pub enum MountOp {
    MakeDir(Seq<char>),
    Link(Seq<char>, Seq<char>),
}

impl View for MountStep {
    type V = MountOp;

    open spec fn view(&self) -> MountOp {
        match self {
            MountStep::CreateDirAll { path } => MountOp::MakeDir(path@),
            MountStep::Symlink { target, link } => MountOp::Link(target@, link@),
        }
    }
}

/// Why a snapshot cannot be laid out as links.
pub enum MountError {
    /// The link of a file has no parent directory.
    NoParent { link: String },
    /// No relative path leads from the link's directory to the stored file.
    NoRelativePath { link: String },
}

/// The link that stands for a stored file of digest `hash` at `path` in the
/// snapshot: absolute, below `mount_point`, pointing at the stored file by
/// a path relative to the link's directory.
pub open spec fn file_link(
    data_dir: Seq<char>,
    mount_point: Seq<char>,
    cwd: Seq<char>,
    path: Seq<char>,
    hash: Seq<u8>,
) -> Option<MountOp> {
    let link = absolutized(join(mount_point, path), cwd);
    let source = absolutized(content_path(data_dir, hash), cwd);
    match parent_of(link) {
        None => None,
        Some(dir) => match path_diff(source, dir) {
            None => None,
            Some(target) => Some(MountOp::Link(target, link)),
        },
    }
}

/// The steps that lay out snapshot `b` below `mount_point`: its directories,
/// then a link per file to its stored content, then its symlinks as they
/// were; `None` where a file's link cannot be formed.
pub open spec fn mount_ops(
    data_dir: Seq<char>,
    b: Backup,
    mount_point: Seq<char>,
    cwd: Seq<char>,
) -> Option<Seq<MountOp>> {
    let files = b.file_list();
    if forall|i: int|
        0 <= i < files.len() ==> #[trigger] file_link(
            data_dir,
            mount_point,
            cwd,
            files[i].path@,
            files[i].hash@,
        ) is Some {
        Some(
            b.dir_list().map_values(|d: String| MountOp::MakeDir(join(mount_point, d@))) + files.map_values(
                |f: crate::backup::BackupFile|
                    file_link(data_dir, mount_point, cwd, f.path@, f.hash@)->Some_0,
            ) + b.link_list().map_values(
                |l: (String, String)| MountOp::Link(l.1@, join(mount_point, l.0@)),
            ),
        )
    } else {
        None
    }
}

/// The steps that lay out snapshot `b` of the vault whose store is `storage`
/// below `mount_point`, paths being resolved from the absolute directory
/// `cwd`.
pub fn mount_plan(storage: &Storage, b: &Backup, mount_point: &str, cwd: &str) -> (r: Result<
    Vec<MountStep>,
    MountError,
>)
    requires
        b.wf(),
        cwd@.len() > 0,
        cwd@[0] == '/',
    ensures
        match r {
            Ok(steps) => mount_ops(storage.data_dir(), *b, mount_point@, cwd@) == Some(
                steps@.map_values(|s: MountStep| s@),
            ),
            Err(_) => mount_ops(storage.data_dir(), *b, mount_point@, cwd@) is None,
        },
{
    let ghost dd = storage.data_dir();
    let ghost mp = mount_point@;
    let mut steps: Vec<MountStep> = Vec::new();
    let dirs = b.iter_directories();
    let mut i: usize = 0;
    while i < dirs.len()
        invariant
            dirs@ == b.dir_list(),
            i <= dirs@.len(),
            mp == mount_point@,
            steps@.map_values(|s: MountStep| s@) == dirs@.take(i as int).map_values(
                |d: String| MountOp::MakeDir(join(mp, d@)),
            ),
        decreases dirs@.len() - i,
    {
        let path = join_path(mount_point, dirs[i].as_str());
        let ghost pre = steps@.map_values(|s: MountStep| s@);
        steps.push(MountStep::CreateDirAll { path });
        proof {
            assert(steps@.map_values(|s: MountStep| s@) =~= pre.push(
                MountOp::MakeDir(join(mp, dirs@[i as int]@)),
            ));
            assert(dirs@.take(i as int + 1) =~= dirs@.take(i as int).push(dirs@[i as int]));
            assert(steps@.map_values(|s: MountStep| s@) =~= dirs@.take(i as int + 1).map_values(
                |d: String| MountOp::MakeDir(join(mp, d@)),
            ));
        }
        i = i + 1;
    }
    proof {
        assert(dirs@.take(dirs@.len() as int) =~= dirs@);
    }
    let ghost n_dirs = steps@.len();
    let ghost dir_ops = steps@.map_values(|s: MountStep| s@);
    let files = b.iter_files();
    let mut j: usize = 0;
    while j < files.len()
        invariant
            files@ == b.file_list(),
            j <= files@.len(),
            cwd@.len() > 0,
            cwd@[0] == '/',
            dd == storage.data_dir(),
            mp == mount_point@,
            steps@.map_values(|s: MountStep| s@) == dir_ops + files@.take(j as int).map_values(
                |f: crate::backup::BackupFile| file_link(dd, mp, cwd@, f.path@, f.hash@)->Some_0,
            ),
            forall|k: int| 0 <= k < j ==> #[trigger] file_link(dd, mp, cwd@, files@[k].path@, files@[k].hash@) is Some,
        decreases files@.len() - j,
    {
        let f = &files[j];
        let link = absolutize_from(join_path(mount_point, f.path.as_str()).as_str(), cwd);
        let source = absolutize_from(storage.path_of(&f.hash).as_str(), cwd);
        let dir = match parent(link.as_str()) {
            Some(d) => d,
            None => {
                return Err(MountError::NoParent { link });
            },
        };
        let target = match diff_paths(source.as_str(), dir.as_str()) {
            Some(t) => t,
            None => {
                return Err(MountError::NoRelativePath { link });
            },
        };
        let ghost pre = steps@.map_values(|s: MountStep| s@);
        steps.push(MountStep::Symlink { target, link });
        proof {
            assert(files@.take(j as int + 1) =~= files@.take(j as int).push(files@[j as int]));
            assert(steps@.map_values(|s: MountStep| s@) =~= pre.push(
                file_link(dd, mp, cwd@, f.path@, f.hash@)->Some_0,
            ));
            assert(steps@.map_values(|s: MountStep| s@) =~= dir_ops + files@.take(j as int + 1).map_values(
                |f: crate::backup::BackupFile| file_link(dd, mp, cwd@, f.path@, f.hash@)->Some_0,
            ));
        }
        j = j + 1;
    }
    proof {
        assert(files@.take(files@.len() as int) =~= files@);
    }
    let ghost file_ops = steps@.map_values(|s: MountStep| s@);
    let links = b.iter_symlinks();
    let mut k: usize = 0;
    while k < links.len()
        invariant
            links@ == b.link_list(),
            k <= links@.len(),
            mp == mount_point@,
            steps@.map_values(|s: MountStep| s@) == file_ops + links@.take(k as int).map_values(
                |l: (String, String)| MountOp::Link(l.1@, join(mp, l.0@)),
            ),
        decreases links@.len() - k,
    {
        let link = join_path(mount_point, links[k].0.as_str());
        let target = links[k].1.clone();
        let ghost pre = steps@.map_values(|s: MountStep| s@);
        steps.push(MountStep::Symlink { target, link });
        proof {
            assert(links@.take(k as int + 1) =~= links@.take(k as int).push(links@[k as int]));
            assert(steps@.map_values(|s: MountStep| s@) =~= pre.push(
                MountOp::Link(links@[k as int].1@, join(mp, links@[k as int].0@)),
            ));
            assert(steps@.map_values(|s: MountStep| s@) =~= file_ops + links@.take(k as int + 1).map_values(
                |l: (String, String)| MountOp::Link(l.1@, join(mp, l.0@)),
            ));
        }
        k = k + 1;
    }
    proof {
        assert(links@.take(links@.len() as int) =~= links@);
        assert(steps@.map_values(|s: MountStep| s@) =~= b.dir_list().map_values(
            |d: String| MountOp::MakeDir(join(mp, d@)),
        ) + b.file_list().map_values(
            |f: crate::backup::BackupFile| file_link(dd, mp, cwd@, f.path@, f.hash@)->Some_0,
        ) + b.link_list().map_values(|l: (String, String)| MountOp::Link(l.1@, join(mp, l.0@))));
    }
    Ok(steps)
}

} // verus!
