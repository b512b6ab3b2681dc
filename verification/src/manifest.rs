//! Manifests of files and directories.

use core::marker::PhantomData;

use vstd::hash_set::StringHashSet;
use vstd::prelude::*;

use crate::hash::{HashAlgorithm, WHOLE_FILE_CHUNK_SIZE};
use crate::text::{int_text, push_int};

verus! {

/// A file, a symbolic link, or a file that was deleted.
#[derive(Debug)]
pub struct FileEntry {
    pub path: String,
    pub hash: Option<String>,
    pub size: Option<u64>,
    pub mtime: Option<u64>,
    pub chunk_hashes: Option<Vec<String>>,
    pub symlink_target: Option<String>,
    pub runnable: bool,
    pub deleted: bool,
}

impl FileEntry {
    /// A file that is not hashed yet.
    pub fn file(path: &str, size: u64, mtime: u64) -> (r: FileEntry)
        ensures
            r.path@ == path@,
            r.size == Some(size),
            r.mtime == Some(mtime),
            r.hash is None && r.chunk_hashes is None && r.symlink_target is None,
            !r.runnable && !r.deleted,
    {
        FileEntry {
            path: path.to_owned(),
            hash: None,
            size: Some(size),
            mtime: Some(mtime),
            chunk_hashes: None,
            symlink_target: None,
            runnable: false,
            deleted: false,
        }
    }

    /// A symbolic link.
    pub fn symlink(path: &str, target: &str) -> (r: FileEntry)
        ensures
            r.path@ == path@,
            r.symlink_target matches Some(t) && t@ == target@,
            r.hash is None && r.size is None && r.mtime is None && r.chunk_hashes is None,
            !r.runnable && !r.deleted,
    {
        FileEntry {
            path: path.to_owned(),
            hash: None,
            size: None,
            mtime: None,
            chunk_hashes: None,
            symlink_target: Some(target.to_owned()),
            runnable: false,
            deleted: false,
        }
    }

    /// A file that was deleted.
    pub fn deleted(path: &str) -> (r: FileEntry)
        ensures
            r.path@ == path@,
            r.deleted,
            r.hash is None && r.size is None && r.mtime is None && r.chunk_hashes is None,
            r.symlink_target is None && !r.runnable,
    {
        FileEntry {
            path: path.to_owned(),
            hash: None,
            size: None,
            mtime: None,
            chunk_hashes: None,
            symlink_target: None,
            runnable: false,
            deleted: true,
        }
    }

    /// The entry without its hashes.
    pub open spec fn unhashed(self) -> FileEntry {
        FileEntry { hash: None, chunk_hashes: None, ..self }
    }
}

/// A directory.
#[derive(Debug)]
pub struct DirEntry {
    pub path: String,
    pub deleted: bool,
}

impl DirEntry {
    pub fn new(path: &str) -> (r: DirEntry)
        ensures
            r.path@ == path@,
            !r.deleted,
    {
        DirEntry { path: path.to_owned(), deleted: false }
    }
}

/// How the paths of a manifest are written.
pub trait PathStyle {
    spec fn absolute() -> bool;

    fn is_absolute() -> (r: bool)
        ensures
            r == Self::absolute(),
    ;
}

/// Absolute paths.
#[derive(Debug)]
pub struct Absolute;

/// Paths relative to a root.
#[derive(Debug)]
pub struct Relative;

impl PathStyle for Absolute {
    open spec fn absolute() -> bool {
        true
    }

    fn is_absolute() -> (r: bool) {
        true
    }
}

impl PathStyle for Relative {
    open spec fn absolute() -> bool {
        false
    }

    fn is_absolute() -> (r: bool) {
        false
    }
}

/// A manifest of everything under a root.
#[derive(Debug)]
pub struct Full;

/// A manifest of what changed under a root.
#[derive(Debug)]
pub struct Diff;

/// The files and directories of a snapshot or of a change to one.
#[derive(Debug)]
pub struct Manifest<P, K> {
    pub hash_alg: HashAlgorithm,
    pub file_chunk_size_bytes: i64,
    pub files: Vec<FileEntry>,
    pub dirs: Vec<DirEntry>,
    pub style: PhantomData<P>,
    pub kind: PhantomData<K>,
}

pub type AbsSnapshot = Manifest<Absolute, Full>;

pub type AbsSnapshotDiff = Manifest<Absolute, Diff>;

pub type Snapshot = Manifest<Relative, Full>;

pub type SnapshotDiff = Manifest<Relative, Diff>;

/// What is wrong with a manifest.
#[derive(Debug)]
pub enum ManifestError {
    InvalidChunkSize(i64),
    DuplicatePath(String),
    NotAbsolute(String),
    NotRelative(String),
}

/// The model of a manifest error.
#[verifier::ext_equal]
pub enum ManifestFault {
    InvalidChunkSize(int),
    DuplicatePath(Seq<char>),
    NotAbsolute(Seq<char>),
    NotRelative(Seq<char>),
}

impl View for ManifestError {
    type V = ManifestFault;

    open spec fn view(&self) -> ManifestFault {
        match self {
            ManifestError::InvalidChunkSize(size) => ManifestFault::InvalidChunkSize(*size as int),
            ManifestError::DuplicatePath(path) => ManifestFault::DuplicatePath(path@),
            ManifestError::NotAbsolute(path) => ManifestFault::NotAbsolute(path@),
            ManifestError::NotRelative(path) => ManifestFault::NotRelative(path@),
        }
    }
}

/// The text of a manifest error.
pub open spec fn fault_text(fault: ManifestFault) -> Seq<char> {
    "Manifest validation error: "@ + match fault {
        ManifestFault::InvalidChunkSize(size) => "invalid fileChunkSizeBytes: got "@ + int_text(size)
            + ", must be -1 (WHOLE_FILE_CHUNK_SIZE) or a positive integer"@,
        ManifestFault::DuplicatePath(path) => "duplicate path: "@ + path,
        ManifestFault::NotAbsolute(path) => "expected absolute path, got: "@ + path,
        ManifestFault::NotRelative(path) => "expected relative path, got: "@ + path,
    }
}

impl ManifestError {
    pub fn to_string(&self) -> (r: String)
        ensures
            r@ == fault_text(self@),
    {
        let mut out = "Manifest validation error: ".to_owned();
        let ghost start = out@;
        match self {
            ManifestError::InvalidChunkSize(size) => {
                out.append("invalid fileChunkSizeBytes: got ");
                push_int(&mut out, *size);
                out.append(", must be -1 (WHOLE_FILE_CHUNK_SIZE) or a positive integer");
            },
            ManifestError::DuplicatePath(path) => {
                out.append("duplicate path: ");
                out.append(path.as_str());
            },
            ManifestError::NotAbsolute(path) => {
                out.append("expected absolute path, got: ");
                out.append(path.as_str());
            },
            ManifestError::NotRelative(path) => {
                out.append("expected relative path, got: ");
                out.append(path.as_str());
            },
        }
        assert(out@ =~= fault_text(self@));
        out
    }
}

/// Whether a path starts at a root or a drive.
pub open spec fn starts_at_root(path: Seq<char>) -> bool {
    ||| path.len() > 0 && (path[0] == '/' || path[0] == '\\')
    ||| path.len() > 1 && path[1] == ':'
}

fn path_starts_at_root(path: &str) -> (r: bool)
    ensures
        r == starts_at_root(path@),
{
    let len: usize = path.unicode_len();
    if len == 0 {
        return false;
    }
    let first = path.get_char(0);
    first == '/' || first == '\\' || (len > 1 && path.get_char(1) == ':')
}

/// The first path that has the wrong style or occurred before.
pub open spec fn path_fault(paths: Seq<Seq<char>>, absolute: bool) -> Option<ManifestFault>
    decreases paths.len(),
{
    if paths.len() == 0 {
        None
    } else {
        let path = paths.last();
        match path_fault(paths.drop_last(), absolute) {
            Some(fault) => Some(fault),
            None => if absolute && !starts_at_root(path) {
                Some(ManifestFault::NotAbsolute(path))
            } else if !absolute && starts_at_root(path) {
                Some(ManifestFault::NotRelative(path))
            } else if paths.drop_last().contains(path) {
                Some(ManifestFault::DuplicatePath(path))
            } else {
                None
            },
        }
    }
}

/// The paths of files, then of directories.
pub open spec fn entry_paths(files: Seq<FileEntry>, dirs: Seq<DirEntry>) -> Seq<Seq<char>> {
    Seq::new(files.len(), |i: int| files[i].path@) + Seq::new(dirs.len(), |i: int| dirs[i].path@)
}

/// A fault of leading paths is the fault of all.
proof fn lemma_path_fault_stays(paths: Seq<Seq<char>>, i: int, absolute: bool)
    requires
        0 <= i <= paths.len(),
        path_fault(paths.take(i), absolute) is Some,
    ensures
        path_fault(paths, absolute) == path_fault(paths.take(i), absolute),
    decreases paths.len() - i,
{
    if i == paths.len() {
        assert(paths.take(i) =~= paths);
    } else {
        assert(paths.take(i + 1).drop_last() =~= paths.take(i));
        lemma_path_fault_stays(paths, i + 1, absolute);
    }
}

/// Checks one path against those before it.
fn check_path(
    seen: &mut StringHashSet,
    path: &String,
    absolute: bool,
    Ghost(paths): Ghost<Seq<Seq<char>>>,
    Ghost(i): Ghost<int>,
) -> (r: Result<(), ManifestError>)
    requires
        0 <= i < paths.len(),
        paths[i] == path@,
        path_fault(paths.take(i), absolute) is None,
        forall|p: Seq<char>| old(seen)@.contains(p) <==> #[trigger] paths.take(i).contains(p),
    ensures
        match r {
            Ok(()) => {
                &&& path_fault(paths.take(i + 1), absolute) is None
                &&& forall|p: Seq<char>|
                    final(seen)@.contains(p) <==> #[trigger] paths.take(i + 1).contains(p)
            },
            Err(e) => path_fault(paths.take(i + 1), absolute) == Some(e@),
        },
{
    proof {
        assert(paths.take(i + 1).drop_last() =~= paths.take(i));
        let (shorter, longer) = (paths.take(i), paths.take(i + 1));
        assert forall|p: Seq<char>|
            #[trigger] longer.contains(p) <==> (shorter.contains(p) || p == path@) by {
            if longer.contains(p) {
                let j = choose|j: int| 0 <= j < longer.len() && longer[j] == p;
                if j < i {
                    assert(shorter[j] == p);
                }
            }
            if shorter.contains(p) {
                let j = choose|j: int| 0 <= j < shorter.len() && shorter[j] == p;
                assert(longer[j] == p);
            }
            assert(longer[i] == path@);
        }
    }
    let rooted = path_starts_at_root(path.as_str());
    if absolute && !rooted {
        return Err(ManifestError::NotAbsolute(path.clone()));
    }
    if !absolute && rooted {
        return Err(ManifestError::NotRelative(path.clone()));
    }
    if !seen.insert(path.clone()) {
        return Err(ManifestError::DuplicatePath(path.clone()));
    }
    Ok(())
}

impl<P, K> Manifest<P, K> {
    /// An empty manifest.
    pub fn new(hash_alg: HashAlgorithm, file_chunk_size_bytes: i64) -> (r: Manifest<P, K>)
        ensures
            r.hash_alg == hash_alg,
            r.file_chunk_size_bytes == file_chunk_size_bytes,
            r.files@.len() == 0,
            r.dirs@.len() == 0,
    {
        Manifest {
            hash_alg,
            file_chunk_size_bytes,
            files: Vec::new(),
            dirs: Vec::new(),
            style: PhantomData,
            kind: PhantomData,
        }
    }

    /// The manifest with these files.
    pub fn with_files(self, files: Vec<FileEntry>) -> (r: Manifest<P, K>)
        ensures
            r == (Manifest { files, ..self }),
    {
        Manifest { files, ..self }
    }

    /// The manifest with these directories.
    pub fn with_dirs(self, dirs: Vec<DirEntry>) -> (r: Manifest<P, K>)
        ensures
            r == (Manifest { dirs, ..self }),
    {
        Manifest { dirs, ..self }
    }

    /// Removes the hashes of all files and keeps everything else.
    pub fn clear_hashes(&mut self)
        ensures
            final(self).files@.len() == old(self).files@.len(),
            forall|i: int|
                0 <= i < old(self).files@.len() ==> #[trigger] final(self).files@[i] == old(
                    self,
                ).files@[i].unhashed(),
            final(self).hash_alg == old(self).hash_alg,
            final(self).file_chunk_size_bytes == old(self).file_chunk_size_bytes,
            final(self).dirs == old(self).dirs,
    {
        let mut i: usize = 0;
        while i < self.files.len()
            invariant
                i <= self.files@.len(),
                self.files@.len() == old(self).files@.len(),
                forall|j: int|
                    0 <= j < i ==> #[trigger] self.files@[j] == old(self).files@[j].unhashed(),
                forall|j: int|
                    i <= j < self.files@.len() ==> #[trigger] self.files@[j] == old(self).files@[j],
                self.hash_alg == old(self).hash_alg,
                self.file_chunk_size_bytes == old(self).file_chunk_size_bytes,
                self.dirs == old(self).dirs,
            decreases self.files@.len() - i,
        {
            self.files[i].hash = None;
            self.files[i].chunk_hashes = None;
            i = i + 1;
        }
    }
}

impl<P: PathStyle, K> Manifest<P, K> {
    /// The first thing wrong with the manifest: its chunk size, or a path.
    pub open spec fn fault(self) -> Option<ManifestFault> {
        if self.file_chunk_size_bytes != WHOLE_FILE_CHUNK_SIZE && self.file_chunk_size_bytes <= 0 {
            Some(ManifestFault::InvalidChunkSize(self.file_chunk_size_bytes as int))
        } else {
            path_fault(entry_paths(self.files@, self.dirs@), P::absolute())
        }
    }

    /// Checks the chunk size, the style of the paths, and that no path occurs
    /// twice.
    pub fn validate(&self) -> (r: Result<(), ManifestError>)
        ensures
            match r {
                Ok(()) => self.fault() is None,
                Err(e) => self.fault() == Some(e@),
            },
    {
        if self.file_chunk_size_bytes != WHOLE_FILE_CHUNK_SIZE && self.file_chunk_size_bytes <= 0 {
            return Err(ManifestError::InvalidChunkSize(self.file_chunk_size_bytes));
        }
        let ghost paths = entry_paths(self.files@, self.dirs@);
        let absolute = P::is_absolute();
        let mut seen = StringHashSet::new();
        let mut i: usize = 0;
        proof {
            assert(paths.take(0) =~= seq![]);
        }
        while i < self.files.len()
            invariant
                i <= self.files@.len(),
                paths == entry_paths(self.files@, self.dirs@),
                absolute == P::absolute(),
                self.file_chunk_size_bytes == WHOLE_FILE_CHUNK_SIZE || self.file_chunk_size_bytes > 0,
                path_fault(paths.take(i as int), absolute) is None,
                forall|p: Seq<char>| seen@.contains(p) <==> #[trigger] paths.take(i as int).contains(p),
            decreases self.files@.len() - i,
        {
            match check_path(&mut seen, &self.files[i].path, absolute, Ghost(paths), Ghost(i as int)) {
                Ok(()) => {},
                Err(e) => {
                    proof {
                        lemma_path_fault_stays(paths, i + 1, absolute);
                    }
                    return Err(e);
                },
            }
            i = i + 1;
        }
        let mut k: usize = 0;
        while k < self.dirs.len()
            invariant
                k <= self.dirs@.len(),
                paths == entry_paths(self.files@, self.dirs@),
                absolute == P::absolute(),
                self.file_chunk_size_bytes == WHOLE_FILE_CHUNK_SIZE || self.file_chunk_size_bytes > 0,
                path_fault(paths.take(self.files@.len() + k), absolute) is None,
                forall|p: Seq<char>|
                    seen@.contains(p) <==> #[trigger] paths.take(self.files@.len() + k).contains(p),
            decreases self.dirs@.len() - k,
        {
            let ghost at = self.files@.len() + k;
            match check_path(&mut seen, &self.dirs[k].path, absolute, Ghost(paths), Ghost(at)) {
                Ok(()) => {},
                Err(e) => {
                    proof {
                        lemma_path_fault_stays(paths, at + 1, absolute);
                    }
                    return Err(e);
                },
            }
            k = k + 1;
        }
        proof {
            assert(paths.take(self.files@.len() + k) =~= paths);
        }
        Ok(())
    }
}

/// Paths without a fault are all of one style and differ from each other.
pub proof fn accepted_paths_are_distinct(paths: Seq<Seq<char>>, absolute: bool)
    requires
        path_fault(paths, absolute) is None,
    ensures
        paths.no_duplicates(),
        forall|i: int| 0 <= i < paths.len() ==> starts_at_root(#[trigger] paths[i]) == absolute,
    decreases paths.len(),
{
    if paths.len() > 0 {
        let rest = paths.drop_last();
        accepted_paths_are_distinct(rest, absolute);
        assert forall|i: int| 0 <= i < paths.len() implies starts_at_root(#[trigger] paths[i]) == absolute by {
            if i < rest.len() {
                assert(rest[i] == paths[i]);
            }
        }
        assert forall|i: int, j: int| 0 <= i < paths.len() && 0 <= j < paths.len() && i != j implies paths[i]
            != paths[j] by {
            if i < rest.len() && j < rest.len() {
                assert(rest[i] != rest[j]);
            } else if i < rest.len() {
                assert(rest[i] == paths[i]);
                assert(rest.contains(paths[i]));
            } else {
                assert(rest[j] == paths[j]);
                assert(rest.contains(paths[j]));
            }
        }
    }
}

/// Hashes that were removed stay removed: removing them again changes nothing.
pub proof fn clearing_hashes_is_idempotent(entry: FileEntry)
    ensures
        entry.unhashed().unhashed() == entry.unhashed(),
{
}

} // verus!
