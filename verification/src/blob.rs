//! The blob identity model: one file's observed identity and location.
//! A blob's fingerprint is its basename, its content digest and its byte
//! size joined with `-`; files with equal fingerprints are treated as the
//! same regardless of their directory.

use vstd::prelude::*;

verus! {

use vstd::string::StringExecFns;
use vstd::utf8::encode_utf8;
use crate::digest::sha256_hex_of;
use crate::fsys::{FileSystem, FsError};
use crate::numstr::{dec_str_of, u64_to_dec};
use crate::pathmodel::{basename_of, dir_of, path_wf, split_path};

/// One file's observed identity: where it was seen and what it contained.
#[derive(Debug)]
pub struct Blob {
    pub path: String,
    pub basename: String,
    pub dir: String,
    pub hash: String,
    pub id: String,
    pub size: u64,
}

/// The mathematical shape of a blob.
#[verifier::ext_equal]
pub struct BlobView {
    pub path: Seq<char>,
    pub basename: Seq<char>,
    pub dir: Seq<char>,
    pub hash: Seq<char>,
    pub id: Seq<char>,
    pub size: nat,
}

impl View for Blob {
    type V = BlobView;

    open spec fn view(&self) -> BlobView {
        BlobView {
            path: self.path@,
            basename: self.basename@,
            dir: self.dir@,
            hash: self.hash@,
            id: self.id@,
            size: self.size as nat,
        }
    }
}

/// The fingerprint derived from a basename, a hex digest and a size.
pub open spec fn fingerprint_of(basename: Seq<char>, hash: Seq<char>, size: nat) -> Seq<char> {
    basename + "-"@ + hash + "-"@ + dec_str_of(size)
}

/// The blob a well-formed path with the given content must yield.
pub open spec fn blob_of(p: Seq<char>, c: Seq<char>) -> BlobView {
    BlobView {
        path: p,
        basename: basename_of(p),
        dir: dir_of(p),
        hash: sha256_hex_of(c),
        id: fingerprint_of(basename_of(p), sha256_hex_of(c), encode_utf8(c).len()),
        size: encode_utf8(c).len(),
    }
}

/// The fingerprint of a path/content pair.
pub open spec fn fp_of(p: Seq<char>, c: Seq<char>) -> Seq<char> {
    blob_of(p, c).id
}

impl Clone for Blob {
    fn clone(&self) -> (r: Self)
        ensures
            r == *self,
    {
        Blob {
            path: self.path.clone(),
            basename: self.basename.clone(),
            dir: self.dir.clone(),
            hash: self.hash.clone(),
            id: self.id.clone(),
            size: self.size,
        }
    }
}

impl Blob {
    /// Derives the blob for one path: splits the path, hashes and sizes the
    /// file. Fails with `PathMalformed` exactly on paths that are not well
    /// formed, and otherwise only with the capability's `IoFailure`.
    pub fn new<FS: FileSystem>(path: &str, file_sys: &FS) -> (r: Result<Blob, FsError>)
        ensures
            r matches Ok(b) ==> path_wf(path@) && file_sys.model().contains_key(path@) && b@
                == blob_of(path@, file_sys.model()[path@]),
            r matches Err(e) ==> e == (if path_wf(path@) {
                FsError::IoFailure
            } else {
                FsError::PathMalformed
            }),
    {
        let (dir, basename) = match split_path(path) {
            Some(p) => p,
            None => {
                return Err(FsError::PathMalformed);
            },
        };
        let hash = match file_sys.hash_file(path) {
            Ok(h) => h,
            Err(e) => {
                return Err(e);
            },
        };
        let size = match file_sys.size(path) {
            Ok(n) => n,
            Err(e) => {
                return Err(e);
            },
        };
        let mut id = String::new();
        id.append(basename.as_str());
        id.append("-");
        id.append(hash.as_str());
        id.append("-");
        let size_str = u64_to_dec(size);
        id.append(size_str.as_str());
        let blob = Blob {
            path: String::from_str(path),
            basename,
            dir,
            hash,
            id,
            size,
        };
        proof {
            let c = file_sys.model()[path@];
            assert(blob.id@ =~= fingerprint_of(basename_of(path@), sha256_hex_of(c), encode_utf8(c).len()));
            assert(blob@ =~= blob_of(path@, c));
        }
        Ok(blob)
    }
}

} // verus!
