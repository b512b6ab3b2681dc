//! Which manifests are valid and how files are cut into chunks.

use vstd::arithmetic::power::pow;
use vstd::prelude::*;

use crate::hash::{chunk_hashes, hash_text, xxh3_digest};
use crate::manifest::{path_fault, FileEntry, Manifest, ManifestFault, PathStyle};

verus! {

/// Whether a path begins with a slash, a backslash, or a letter of a drive and
/// a colon.
pub open spec fn is_rooted(path: Seq<char>) -> bool {
    ||| path.len() >= 1 && path[0] == '/'
    ||| path.len() >= 1 && path[0] == '\\'
    ||| path.len() >= 2 && path[1] == ':'
}

/// Whether paths have no fault.
pub open spec fn paths_are_sound(paths: Seq<Seq<char>>, absolute: bool) -> bool {
    &&& forall|i: int| 0 <= i < paths.len() ==> is_rooted(#[trigger] paths[i]) == absolute
    &&& forall|i: int, j: int| 0 <= i < j < paths.len() ==> #[trigger] paths[i] != #[trigger] paths[j]
}

/// Whether a fault is that of a path: it has the wrong style, or occurred
/// before.
pub open spec fn is_fault_of(fault: ManifestFault, paths: Seq<Seq<char>>, i: int, absolute: bool) -> bool {
    let path = paths[i];
    match fault {
        ManifestFault::NotAbsolute(p) => p == path && absolute && !is_rooted(path),
        ManifestFault::NotRelative(p) => p == path && !absolute && is_rooted(path),
        ManifestFault::DuplicatePath(p) => p == path && is_rooted(path) == absolute && exists|j: int|
            0 <= j < i && #[trigger] paths[j] == path,
        ManifestFault::InvalidChunkSize(_) => false,
    }
}

proof fn lemma_sound_paths(paths: Seq<Seq<char>>, absolute: bool)
    ensures
        path_fault(paths, absolute) is None <==> paths_are_sound(paths, absolute),
    decreases paths.len(),
{
    if paths.len() > 0 {
        let rest = paths.drop_last();
        let path = paths.last();
        lemma_sound_paths(rest, absolute);
        assert(paths[paths.len() - 1] == path);
        if path_fault(paths, absolute) is None {
            assert forall|i: int| 0 <= i < paths.len() implies is_rooted(#[trigger] paths[i]) == absolute by {
                if i < rest.len() {
                    assert(paths[i] == rest[i]);
                }
            }
            assert forall|i: int, j: int| 0 <= i < j < paths.len() implies #[trigger] paths[i]
                != #[trigger] paths[j] by {
                assert(paths[i] == rest[i]);
                if j < rest.len() {
                    assert(paths[j] == rest[j]);
                } else {
                    assert(rest.contains(rest[i]));
                }
            }
        }
        if paths_are_sound(paths, absolute) {
            assert forall|i: int| 0 <= i < rest.len() implies is_rooted(#[trigger] rest[i]) == absolute by {
                assert(paths[i] == rest[i]);
            }
            assert forall|i: int, j: int| 0 <= i < j < rest.len() implies #[trigger] rest[i]
                != #[trigger] rest[j] by {
                assert(paths[i] == rest[i] && paths[j] == rest[j]);
            }
            if rest.contains(path) {
                let i = choose|i: int| 0 <= i < rest.len() && rest[i] == path;
                assert(paths[i] == path);
                assert(paths[i] != paths[paths.len() - 1]);
            }
        }
    }
}

/// The paths of the files and then of the directories of a manifest.
pub open spec fn paths_of<P, K>(manifest: Manifest<P, K>) -> Seq<Seq<char>> {
    Seq::new(
        (manifest.files@.len() + manifest.dirs@.len()) as nat,
        |i: int|
            if i < manifest.files@.len() {
                manifest.files@[i].path@
            } else {
                manifest.dirs@[i - manifest.files@.len()].path@
            },
    )
}

/// A manifest is valid if and only if its files are hashed whole or in chunks of
/// a positive size, all its paths are of its style, and no two are the same.
pub proof fn manifests_are_valid_exactly_when_sound<P: PathStyle, K>(manifest: Manifest<P, K>)
    ensures
        manifest.fault() is None <==> (manifest.file_chunk_size_bytes == -1
            || manifest.file_chunk_size_bytes >= 1) && paths_are_sound(paths_of(manifest), P::absolute()),
        manifest.fault() == Some(
            ManifestFault::InvalidChunkSize(manifest.file_chunk_size_bytes as int),
        ) <==> manifest.file_chunk_size_bytes == 0 || manifest.file_chunk_size_bytes < -1,
{
    let paths = crate::manifest::entry_paths(manifest.files@, manifest.dirs@);
    assert(paths =~= paths_of(manifest));
    lemma_sound_paths(paths, P::absolute());
    if path_fault(paths, P::absolute()) is Some {
        first_fault_is_reported(paths, P::absolute());
    }
}

/// The fault of paths is that of the first path that has one.
pub proof fn first_fault_is_reported(paths: Seq<Seq<char>>, absolute: bool)
    ensures
        path_fault(paths, absolute) matches Some(fault) ==> exists|i: int|
            0 <= i < paths.len() && paths_are_sound(paths.take(i), absolute) && #[trigger] is_fault_of(
                fault,
                paths,
                i,
                absolute,
            ),
    decreases paths.len(),
{
    if let Some(fault) = path_fault(paths, absolute) {
        let rest = paths.drop_last();
        if path_fault(rest, absolute) is Some {
            first_fault_is_reported(rest, absolute);
            let i = choose|i: int|
                0 <= i < rest.len() && paths_are_sound(rest.take(i), absolute) && #[trigger] is_fault_of(
                    fault,
                    rest,
                    i,
                    absolute,
                );
            assert(rest.take(i) =~= paths.take(i));
            if fault is DuplicatePath {
                let j = choose|j: int| 0 <= j < i && #[trigger] rest[j] == rest[i];
                assert(paths[j] == paths[i]);
            }
            assert(is_fault_of(fault, paths, i, absolute));
        } else {
            let i = paths.len() - 1;
            lemma_sound_paths(rest, absolute);
            assert(rest =~= paths.take(i));
            if fault is DuplicatePath {
                let j = choose|j: int| 0 <= j < rest.len() && rest[j] == paths.last();
                assert(paths[j] == paths[i]);
            }
            assert(is_fault_of(fault, paths, i, absolute));
        }
    }
}

/// The text of a hash has 32 hexadecimal digits in lower case, the highest first:
/// those of the 128 bits that the data hash to.
pub proof fn hashes_are_written_in_full(data: Seq<u8>, i: int)
    requires
        0 <= i < 32,
    ensures
        hash_text(data).len() == 32,
        ({
            let d = (xxh3_digest(data) as int / pow(16, (31 - i) as nat)) % 16;
            hash_text(data)[i] as int == if d < 10 {
                48 + d
            } else {
                87 + d
            }
        }),
{
    crate::laws::texts::hexadecimal_digits_have_their_places(xxh3_digest(data) as nat, 32, i);
}

/// An entry without its hashes keeps its path, its size and its time.
pub proof fn unhashed_entries_keep_the_rest(entry: FileEntry)
    ensures
        entry.unhashed().hash is None,
        entry.unhashed().chunk_hashes is None,
        entry.unhashed().path == entry.path,
        entry.unhashed().size == entry.size,
        entry.unhashed().mtime == entry.mtime,
{
}

/// Data is cut into the least number of chunks that hold it, one where there
/// is none, and each hash is that of the bytes of its own chunk.
pub proof fn chunks_cover_the_data(data: Seq<u8>, chunk: nat, i: int)
    requires
        chunk > 0,
    ensures
        ({
            let count = chunk_hashes(data, chunk).len();
            &&& count >= 1
            &&& data.len() <= count * chunk
            &&& count > 1 ==> (count - 1) * chunk < data.len()
            &&& 0 <= i < count - 1 ==> 0 <= i * chunk && (i + 1) * chunk <= data.len() && chunk_hashes(
                data,
                chunk,
            )[i] == hash_text(data.subrange(i * chunk, (i + 1) * chunk))
            &&& i == count - 1 ==> 0 <= i * chunk <= data.len() && chunk_hashes(data, chunk)[i]
                == hash_text(data.subrange(i * chunk, data.len() as int))
        }),
    decreases data.len(),
{
    let c = chunk as int;
    if data.len() <= chunk {
        assert(0 * c == 0 && 1 * c == c);
        assert(data.subrange(0, data.len() as int) =~= data);
    } else {
        let rest = data.skip(c);
        chunks_cover_the_data(rest, chunk, i - 1);
        let few = chunk_hashes(rest, chunk).len() as int;
        let count = chunk_hashes(data, chunk).len() as int;
        assert(count == few + 1);
        assert(count * c == few * c + c && (count - 1) * c == (few - 1) * c + c) by (nonlinear_arith)
            requires
                count == few + 1,
        ;
        assert(few == 1 ==> (few - 1) * c == 0) by (nonlinear_arith);
        assert(i * c == (i - 1) * c + c && (i + 1) * c == i * c + c) by (nonlinear_arith);
        assert(0 * c == 0);
        if i == 0 {
            assert(data.subrange(0, c) =~= data.take(c));
        } else if 0 < i < count - 1 {
            assert(rest.subrange((i - 1) * c, i * c) =~= data.subrange(i * c, (i + 1) * c));
        } else if i == count - 1 {
            assert(rest.subrange((i - 1) * c, rest.len() as int) =~= data.subrange(
                i * c,
                data.len() as int,
            ));
        }
    }
}

} // verus!
