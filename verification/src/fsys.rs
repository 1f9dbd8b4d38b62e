//! The storage capability: the narrow interface through which the engine
//! reads and mutates a file tree. A capability is modelled by a map from
//! path to content; every method's contract speaks over that model.

use vstd::prelude::*;

verus! {

use vstd::utf8::encode_utf8;
use crate::digest::sha256_hex_of;
use crate::pathmodel::under_root;
use crate::strorder::lex_lt;

/// The log line for a listing.
pub open spec fn list_line_of(root: Seq<char>) -> Seq<char> {
    "list: `"@ + root + "`"@
}

/// The log line for a copy.
pub open spec fn copy_line_of(from: Seq<char>, to: Seq<char>) -> Seq<char> {
    "copy: `"@ + from + "` -> `"@ + to + "`"@
}

/// The log line for a move.
pub open spec fn move_line_of(from: Seq<char>, to: Seq<char>) -> Seq<char> {
    "move: `"@ + from + "` -> `"@ + to + "`"@
}

/// The log line for a delete.
pub open spec fn delete_line_of(path: Seq<char>) -> Seq<char> {
    "delete: `"@ + path + "`"@
}

/// How a storage operation fails.
/// `PathMalformed`: a path without a usable basename or parent directory.
/// `IoFailure`: the capability could not read or write.
/// `NotFound`: the path is not present.
#[derive(Clone, Copy, Debug, PartialEq, Eq, Structural)]
pub enum FsError {
    PathMalformed,
    IoFailure,
    NotFound,
}

/// A storage capability over one file tree.
///
/// `model` is the tree as a map from path to content characters. Mutating
/// methods either succeed and change the model as stated, or fail and leave
/// it as it was; a failed operation never reports `PathMalformed`, which is
/// reserved for path analysis.
pub trait FileSystem: Sized {
    /// The files the capability currently holds: path to content. An
    /// implementation that does not say what it holds models an empty tree;
    /// a verified one overrides this with its real contents.
    open spec fn model(&self) -> Map<Seq<char>, Seq<char>> {
        Map::<Seq<char>, Seq<char>>::empty()
    }

    /// The trace of calls made on the capability so far: one line per
    /// listing and per successful mutation, in call order. An
    /// implementation that does not say what it records models an empty
    /// trace; a verified one overrides this with its real record.
    open spec fn call_log(&self) -> Seq<Seq<char>> {
        Seq::<Seq<char>>::empty()
    }

    /// Lists the paths under `root`: exactly the model's keys under that
    /// root, sorted ascending, each once.
    fn list_files(&mut self, root: &str) -> (r: Vec<String>)
        ensures
            final(self).model() == old(self).model(),
            final(self).call_log() == old(self).call_log().push(list_line_of(root@)),
            forall|i: int, j: int|
                0 <= i < j < r@.len() ==> lex_lt(#[trigger] r@[i]@, #[trigger] r@[j]@),
            forall|i: int|
                0 <= i < r@.len() ==> old(self).model().contains_key(#[trigger] r@[i]@)
                    && under_root(root@, r@[i]@),
            forall|p: Seq<char>|
                old(self).model().contains_key(p) && #[trigger] under_root(root@, p)
                    ==> exists|i: int| 0 <= i < r@.len() && r@[i]@ == p,
    ;

    /// The lowercase hex SHA-256 digest of the file's content: 64 hex
    /// characters. A failure to read is an `IoFailure`.
    fn hash_file(&self, path: &str) -> (r: Result<String, FsError>)
        ensures
            r matches Ok(h) ==> self.model().contains_key(path@) && h@ == sha256_hex_of(
                self.model()[path@],
            ) && h@.len() == 64,
            r matches Err(e) ==> e == FsError::IoFailure,
    ;

    /// The file's length in bytes. A failure to stat is an `IoFailure`.
    fn size(&self, path: &str) -> (r: Result<u64, FsError>)
        ensures
            r matches Ok(n) ==> self.model().contains_key(path@) && n == encode_utf8(
                self.model()[path@],
            ).len(),
            r matches Err(e) ==> e == FsError::IoFailure,
    ;

    /// Copies `from` onto `to`, overwriting any file at `to`.
    fn copy_file(&mut self, from: &str, to: &str) -> (r: Result<(), FsError>)
        ensures
            r matches Ok(u) ==> old(self).model().contains_key(from@) && final(self).model()
                == old(self).model().insert(to@, old(self).model()[from@]) && final(self).call_log()
                == old(self).call_log().push(copy_line_of(from@, to@)),
            r matches Err(e) ==> final(self).model() == old(self).model() && final(self).call_log()
                == old(self).call_log() && e != FsError::PathMalformed,
    ;

    /// Moves `from` to `to`, overwriting any file at `to`.
    fn move_file(&mut self, from: &str, to: &str) -> (r: Result<(), FsError>)
        ensures
            r matches Ok(u) ==> old(self).model().contains_key(from@) && final(self).model()
                == old(self).model().remove(from@).insert(to@, old(self).model()[from@]) && final(self).call_log() == old(self).call_log().push(move_line_of(from@, to@)),
            r matches Err(e) ==> final(self).model() == old(self).model() && final(self).call_log()
                == old(self).call_log() && e != FsError::PathMalformed,
    ;

    /// Deletes the file at `path`.
    fn delete_file(&mut self, path: &str) -> (r: Result<(), FsError>)
        ensures
            r matches Ok(u) ==> old(self).model().contains_key(path@) && final(self).model()
                == old(self).model().remove(path@) && final(self).call_log() == old(self).call_log().push(delete_line_of(path@)),
            r matches Err(e) ==> final(self).model() == old(self).model() && final(self).call_log()
                == old(self).call_log() && e != FsError::PathMalformed,
    ;
}

} // verus!
