//! The snapshot builder: a complete fingerprint-to-blob map for one
//! directory, built by listing the directory and deriving a blob per file.
//! One failing blob fails the whole build; no partial snapshot exists.

use vstd::prelude::*;

verus! {

use crate::blob::{blob_of, fp_of, Blob};
use crate::fsys::{list_line_of, FileSystem, FsError};
use crate::ordmap::OrdMap;
use crate::pathmodel::{path_wf, under_root};
use crate::strorder::lex_lt;

/// A snapshot: the fingerprint-to-blob map of one directory.
pub type Snapshot = OrdMap<Blob>;

/// One snapshot entry is honest: some file of the tree under the root
/// produced it.
pub open spec fn snapshot_entry_ok(
    m: Map<Seq<char>, Seq<char>>,
    root: Seq<char>,
    k: Seq<char>,
    b: Blob,
) -> bool {
    exists|p: Seq<char>|
        #[trigger] m.contains_key(p) && under_root(root, p) && path_wf(p) && b@ == blob_of(
            p,
            m[p],
        ) && k == b@.id
}

/// A snapshot faithfully describes the tree `m` under `root`: it is sorted,
/// every entry comes from a file under the root, every file under the root
/// is well formed and appears under its fingerprint.
pub open spec fn snapshot_faithful(
    s: Snapshot,
    m: Map<Seq<char>, Seq<char>>,
    root: Seq<char>,
) -> bool {
    &&& s.wf()
    &&& forall|k: Seq<char>|
        #[trigger] s@.contains_key(k) ==> snapshot_entry_ok(m, root, k, s@[k])
    &&& forall|p: Seq<char>|
        m.contains_key(p) && #[trigger] under_root(root, p) ==> path_wf(p) && s@.contains_key(
            fp_of(p, m[p]),
        )
}

/// Which file wins a fingerprint collision: the entry's path is the
/// lexicographically greatest path under the root that carries the entry's
/// fingerprint — the last one a sorted listing yields.
pub open spec fn snapshot_entry_latest(
    m: Map<Seq<char>, Seq<char>>,
    root: Seq<char>,
    k: Seq<char>,
    b: Blob,
) -> bool {
    forall|q: Seq<char>|
        m.contains_key(q) && #[trigger] under_root(root, q) && path_wf(q) && fp_of(q, m[q]) == k
            ==> (q == b@.path || lex_lt(q, b@.path))
}

/// A canonical snapshot: faithful, and on a fingerprint collision the
/// last-listed file's blob wins.
pub open spec fn snapshot_canonical(
    s: Snapshot,
    m: Map<Seq<char>, Seq<char>>,
    root: Seq<char>,
) -> bool {
    &&& snapshot_faithful(s, m, root)
    &&& forall|k: Seq<char>|
        #[trigger] s@.contains_key(k) ==> snapshot_entry_latest(m, root, k, s@[k])
}

/// Derives a blob per path; the first failure fails the whole batch.
pub fn paths_to_blobs<FS: FileSystem>(paths: &Vec<String>, file_sys: &FS) -> (r: Result<
    Vec<Blob>,
    FsError,
>)
    ensures
        r matches Ok(bs) ==> bs@.len() == paths@.len() && forall|i: int|
            0 <= i < paths@.len() ==> path_wf(#[trigger] paths@[i]@) && file_sys.model().contains_key(
                paths@[i]@,
            ) && bs@[i]@ == blob_of(paths@[i]@, file_sys.model()[paths@[i]@]),
        paths@.len() == 0 ==> r is Ok,
        paths@.len() > 0 && !path_wf(paths@[0]@) ==> r == Err::<Vec<Blob>, FsError>(
            FsError::PathMalformed,
        ),
        r matches Err(e) ==> (e == FsError::PathMalformed || e == FsError::IoFailure) && (e
            == FsError::PathMalformed ==> exists|i: int|
            0 <= i < paths@.len() && !path_wf(#[trigger] paths@[i]@)),
        (forall|i: int| 0 <= i < paths@.len() ==> path_wf(#[trigger] paths@[i]@)) && r is Err
            ==> r == Err::<Vec<Blob>, FsError>(FsError::IoFailure),
{
    let mut blobs: Vec<Blob> = Vec::new();
    let n = paths.len();
    let mut i: usize = 0;
    while i < n
        invariant
            i <= n,
            n == paths@.len(),
            blobs@.len() == i,
            forall|j: int|
                0 <= j < i ==> path_wf(#[trigger] paths@[j]@) && file_sys.model().contains_key(
                    paths@[j]@,
                ) && blobs@[j]@ == blob_of(paths@[j]@, file_sys.model()[paths@[j]@]),
        decreases n - i,
    {
        match Blob::new(paths[i].as_str(), file_sys) {
            Ok(b) => {
                blobs.push(b);
            },
            Err(e) => {
                return Err(e);
            },
        }
        i = i + 1;
    }
    Ok(blobs)
}

/// Builds the fingerprint-keyed map from a batch of blobs. When two blobs
/// share a fingerprint the later one silently wins.
pub fn struct_to_hashmap(blobs: Vec<Blob>) -> (r: Snapshot)
    ensures
        r.wf(),
        forall|k: Seq<char>|
            r@.contains_key(k) <==> exists|i: int| 0 <= i < blobs@.len() && #[trigger] blobs@[i]@.id
                == k,
        forall|k: Seq<char>|
            #[trigger] r@.contains_key(k) ==> exists|i: int|
                0 <= i < blobs@.len() && #[trigger] blobs@[i]@.id == k && r@[k] == blobs@[i] && (
                forall|j: int| i < j < blobs@.len() ==> #[trigger] blobs@[j]@.id != k),
{
    let mut map: Snapshot = OrdMap::new();
    let n = blobs.len();
    let mut i: usize = 0;
    while i < n
        invariant
            i <= n,
            n == blobs@.len(),
            map.wf(),
            forall|k: Seq<char>|
                map@.contains_key(k) <==> exists|j: int| 0 <= j < i && #[trigger] blobs@[j]@.id
                    == k,
            forall|k: Seq<char>|
                #[trigger] map@.contains_key(k) ==> exists|j: int|
                    0 <= j < i && #[trigger] blobs@[j]@.id == k && map@[k] == blobs@[j] && (
                    forall|l: int| j < l < i ==> #[trigger] blobs@[l]@.id != k),
        decreases n - i,
    {
        let b = &blobs[i];
        let key = b.id.clone();
        let value = b.clone();
        let ghost prev = map@;
        map.insert(key, value);
        proof {
            let id_i = blobs@[i as int]@.id;
            assert(map@ =~= prev.insert(id_i, blobs@[i as int]));
            assert forall|k: Seq<char>| map@.contains_key(k) implies exists|j: int|
                0 <= j < i + 1 && #[trigger] blobs@[j]@.id == k by {
                if k == id_i {
                    assert(blobs@[i as int]@.id == k);
                } else {
                    assert(prev.contains_key(k));
                }
            }
            assert forall|k: Seq<char>| (exists|j: int|
                0 <= j < i + 1 && #[trigger] blobs@[j]@.id == k) implies map@.contains_key(k) by {
                let j = choose|j: int| 0 <= j < i + 1 && #[trigger] blobs@[j]@.id == k;
                if j < i {
                    assert(prev.contains_key(k));
                }
            }
            assert forall|k: Seq<char>| #[trigger] map@.contains_key(k) implies exists|j: int|
                0 <= j < i + 1 && #[trigger] blobs@[j]@.id == k && map@[k] == blobs@[j] && (
                forall|l: int| j < l < i + 1 ==> #[trigger] blobs@[l]@.id != k) by {
                if k == id_i {
                    let j = i as int;
                    assert(blobs@[j]@.id == k && map@[k] == blobs@[j] && (forall|l: int|
                        j < l < i + 1 ==> #[trigger] blobs@[l]@.id != k));
                } else {
                    assert(prev.contains_key(k));
                    let j = choose|j: int|
                        0 <= j < i && #[trigger] blobs@[j]@.id == k && prev[k] == blobs@[j] && (
                        forall|l: int| j < l < i ==> #[trigger] blobs@[l]@.id != k);
                    assert(map@[k] == prev[k]);
                    assert(blobs@[j]@.id == k && map@[k] == blobs@[j] && (forall|l: int|
                        j < l < i + 1 ==> #[trigger] blobs@[l]@.id != k));
                }
            }
        }
        i = i + 1;
    }
    map
}

/// Builds the complete snapshot for one root directory: one listing call,
/// then a blob per listed file. The tree is unchanged afterwards; on
/// success the snapshot is canonical, on failure the error kind tells a
/// malformed path from a read failure, and an empty directory always
/// succeeds.
pub fn get_struct_map<FS: FileSystem>(root_dir: &str, file_sys: &mut FS) -> (r: Result<
    Snapshot,
    FsError,
>)
    ensures
        final(file_sys).model() == old(file_sys).model(),
        final(file_sys).call_log() == old(file_sys).call_log().push(list_line_of(root_dir@)),
        r matches Ok(s) ==> snapshot_canonical(s, old(file_sys).model(), root_dir@),
        (forall|p: Seq<char>|
            old(file_sys).model().contains_key(p) ==> !#[trigger] under_root(root_dir@, p))
            ==> r is Ok,
        r matches Err(e) ==> (e == FsError::PathMalformed || e == FsError::IoFailure) && (e
            == FsError::PathMalformed ==> exists|p: Seq<char>|
            old(file_sys).model().contains_key(p) && #[trigger] under_root(root_dir@, p)
                && !path_wf(p)),
        (forall|p: Seq<char>|
            old(file_sys).model().contains_key(p) && #[trigger] under_root(root_dir@, p)
                ==> path_wf(p)) && r is Err ==> r == Err::<Snapshot, FsError>(FsError::IoFailure),
{
    let paths = file_sys.list_files(root_dir);
    let blobs = match paths_to_blobs(&paths, file_sys) {
        Ok(bs) => bs,
        Err(e) => {
            proof {
                if paths@.len() > 0 {
                    assert(old(file_sys).model().contains_key(paths@[0]@) && under_root(
                        root_dir@,
                        paths@[0]@,
                    ));
                }
                if (forall|p: Seq<char>|
                    old(file_sys).model().contains_key(p) && #[trigger] under_root(root_dir@, p)
                        ==> path_wf(p)) {
                    assert forall|i: int| 0 <= i < paths@.len() implies path_wf(
                        #[trigger] paths@[i]@,
                    ) by {
                        assert(old(file_sys).model().contains_key(paths@[i]@) && under_root(
                            root_dir@,
                            paths@[i]@,
                        ));
                    }
                }
            }
            return Err(e);
        },
    };
    let map = struct_to_hashmap(blobs);
    proof {
        let m = file_sys.model();
        let root = root_dir@;
        let bs = map;
        assert forall|k: Seq<char>| #[trigger] bs@.contains_key(k) implies snapshot_entry_ok(
            m,
            root,
            k,
            bs@[k],
        ) by {
            let i = choose|i: int|
                0 <= i < blobs@.len() && #[trigger] blobs@[i]@.id == k && bs@[k] == blobs@[i] && (
                forall|j: int| i < j < blobs@.len() ==> #[trigger] blobs@[j]@.id != k);
            let p = paths@[i]@;
            assert(m.contains_key(p) && under_root(root, p) && path_wf(p) && bs@[k]@ == blob_of(
                p,
                m[p],
            ) && k == bs@[k]@.id);
        }
        assert forall|p: Seq<char>|
            m.contains_key(p) && #[trigger] under_root(root, p) implies path_wf(p)
            && bs@.contains_key(fp_of(p, m[p])) by {
            let i = choose|i: int| 0 <= i < paths@.len() && paths@[i]@ == p;
            assert(paths@[i]@ == p && path_wf(p));
            assert(blobs@[i]@.id == fp_of(p, m[p]));
        }
        assert forall|k: Seq<char>| #[trigger] bs@.contains_key(k) implies snapshot_entry_latest(
            m,
            root,
            k,
            bs@[k],
        ) by {
            let i = choose|i: int|
                0 <= i < blobs@.len() && #[trigger] blobs@[i]@.id == k && bs@[k] == blobs@[i] && (
                forall|j: int| i < j < blobs@.len() ==> #[trigger] blobs@[j]@.id != k);
            assert(bs@[k]@.path == paths@[i]@);
            assert forall|q: Seq<char>|
                m.contains_key(q) && #[trigger] under_root(root, q) && path_wf(q) && fp_of(
                    q,
                    m[q],
                ) == k implies (q == bs@[k]@.path || lex_lt(q, bs@[k]@.path)) by {
                let j = choose|j: int| 0 <= j < paths@.len() && paths@[j]@ == q;
                assert(blobs@[j]@ == blob_of(q, m[q]));
                assert(blobs@[j]@.id == k);
                assert(j <= i);
                if j < i {
                    assert(lex_lt(paths@[j]@, paths@[i]@));
                }
            }
        }
    }
    Ok(map)
}

} // verus!
