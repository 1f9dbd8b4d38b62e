//! The in-memory storage capability: a file tree held as a sorted map from
//! path to content, which also records every mutating call as a log line,
//! so that tests can assert the exact operations a run performed.

use vstd::prelude::*;

verus! {

use vstd::string::StringExecFns;
use crate::digest::{bytes_to_hex, sha256_digest};
use crate::fsys::{
    copy_line_of, delete_line_of, list_line_of, move_line_of, FileSystem, FsError,
};
use crate::ordmap::OrdMap;
use crate::pathmodel::{path_under, under_root};
use crate::strorder::lex_lt;

/// An in-memory file tree that records what is done to it.
pub struct FakeFileSystem {
    files: OrdMap<String>,
    ops: Vec<String>,
}

impl FakeFileSystem {
    #[verifier::type_invariant]
    spec fn inv(&self) -> bool {
        self.files.wf()
    }

    /// An empty tree with an empty log.
    pub fn new() -> (r: Self)
        ensures
            r.model() =~= Map::<Seq<char>, Seq<char>>::empty(),
            r.call_log() =~= Seq::<Seq<char>>::empty(),
    {
        FakeFileSystem { files: OrdMap::new(), ops: Vec::new() }
    }

    /// Puts a file into the tree, as test setups do. Not a storage
    /// operation: nothing is logged.
    pub fn insert_file(&mut self, path: String, content: String)
        ensures
            final(self).model() =~= old(self).model().insert(path@, content@),
            final(self).call_log() == old(self).call_log(),
    {
        proof {
            use_type_invariant(&*self);
        }
        let mut files = OrdMap::new();
        core::mem::swap(&mut files, &mut self.files);
        files.insert(path, content);
        self.files = files;
    }

    /// The content at a path, if the tree holds it.
    pub fn content_of(&self, path: &str) -> (r: Option<&String>)
        ensures
            match r {
                Some(c) => self.model().contains_key(path@) && c@ == self.model()[path@],
                None => !self.model().contains_key(path@),
            },
    {
        proof {
            use_type_invariant(&*self);
        }
        self.files.get(path)
    }

    /// How many files the tree holds.
    pub closed spec fn spec_file_count(&self) -> nat {
        self.files.spec_len()
    }

    pub fn file_count(&self) -> (r: usize)
        ensures
            r == self.spec_file_count(),
    {
        self.files.len()
    }

    /// The recorded operations, in order.
    pub fn operations(&self) -> (r: &Vec<String>)
        ensures
            r@.map_values(|s: String| s@) == self.call_log(),
    {
        &self.ops
    }
}

impl Default for FakeFileSystem {
    fn default() -> (r: Self)
        ensures
            r.model() =~= Map::<Seq<char>, Seq<char>>::empty(),
            r.call_log() =~= Seq::<Seq<char>>::empty(),
    {
        FakeFileSystem::new()
    }
}

impl FileSystem for FakeFileSystem {
    /// The tree: each stored path bound to its content's characters.
    closed spec fn model(&self) -> Map<Seq<char>, Seq<char>> {
        self.files@.map_values(|c: String| c@)
    }

    /// The recorded calls, line by line.
    closed spec fn call_log(&self) -> Seq<Seq<char>> {
        self.ops@.map_values(|s: String| s@)
    }

    fn list_files(&mut self, root: &str) -> (r: Vec<String>) {
        proof {
            use_type_invariant(&*self);
        }
        let mut line = String::from_str("list: `");
        line.append(root);
        line.append("`");
        proof {
            assert(line@ =~= list_line_of(root@));
        }
        let mut ops: Vec<String> = Vec::new();
        core::mem::swap(&mut ops, &mut self.ops);
        ops.push(line);
        self.ops = ops;
        proof {
            assert(self.call_log() =~= old(self).call_log().push(list_line_of(root@)));
        }
        let mut out: Vec<String> = Vec::new();
        let ghost mut idxs: Seq<int> = Seq::empty();
        let n = self.files.len();
        let mut i: usize = 0;
        while i < n
            invariant
                i <= n,
                n == self.files.spec_len(),
                self.files.wf(),
                self.files == old(self).files,
                idxs.len() == out@.len(),
                forall|a: int| 0 <= a < idxs.len() ==> 0 <= #[trigger] idxs[a] < i,
                forall|a: int, b: int| 0 <= a < b < idxs.len() ==> idxs[a] < idxs[b],
                forall|a: int|
                    0 <= a < idxs.len() ==> #[trigger] out@[a]@ == self.files.entry_seq()[idxs[a]].0
                        && under_root(root@, out@[a]@),
                forall|j: int|
                    0 <= j < i && under_root(root@, #[trigger] self.files.entry_seq()[j].0)
                        ==> exists|a: int| 0 <= a < idxs.len() && idxs[a] == j,
            decreases n - i,
        {
            let ghost idxs0 = idxs;
            let key = self.files.key_at(i);
            let under = path_under(root, key);
            if under {
                out.push(String::from_str(key));
                proof {
                    idxs = idxs.push(i as int);
                }
            }
            proof {
                assert forall|j: int|
                    0 <= j < i + 1 && under_root(root@, #[trigger] self.files.entry_seq()[j].0)
                        implies exists|a: int| 0 <= a < idxs.len() && idxs[a] == j by {
                    if j == i {
                        assert(idxs[idxs.len() - 1] == j);
                    } else {
                        let a = choose|a: int| 0 <= a < idxs0.len() && idxs0[a] == j;
                        assert(idxs[a] == j);
                    }
                }
            }
            i = i + 1;
        }
        proof {
            assert forall|a: int, b: int| 0 <= a < b < out@.len() implies lex_lt(
                #[trigger] out@[a]@,
                #[trigger] out@[b]@,
            ) by {
                assert(idxs[a] < idxs[b]);
            }
            assert forall|a: int|
                0 <= a < out@.len() implies self.model().contains_key(#[trigger] out@[a]@)
                && under_root(root@, out@[a]@) by {
                assert(self.files.entry_seq()[idxs[a]].0 == out@[a]@);
                assert(self.files.contains_sk(out@[a]@));
            }
            assert forall|p: Seq<char>|
                self.model().contains_key(p) && #[trigger] under_root(root@, p) implies exists|
                i: int,
            | 0 <= i < out@.len() && out@[i]@ == p by {
                assert(self.files.contains_sk(p));
                self.files.lemma_index_of(p);
                let j = self.files.index_of(p);
                assert(under_root(root@, self.files.entry_seq()[j].0));
                let a = choose|a: int| 0 <= a < idxs.len() && idxs[a] == j;
                assert(out@[a]@ == p);
            }
        }
        out
    }

    fn hash_file(&self, path: &str) -> (r: Result<String, FsError>)
        ensures
            r is Ok <==> self.model().contains_key(path@),
            r is Err ==> r == Err::<String, FsError>(FsError::IoFailure),
    {
        proof {
            use_type_invariant(&*self);
        }
        match self.files.get(path) {
            Some(content) => {
                let digest = sha256_digest(content.as_str());
                let hex = bytes_to_hex(&digest);
                proof {
                    crate::digest::lemma_hex_of_len(digest@);
                }
                Ok(hex)
            },
            None => Err(FsError::IoFailure),
        }
    }

    fn size(&self, path: &str) -> (r: Result<u64, FsError>)
        ensures
            r is Ok <==> self.model().contains_key(path@),
            r is Err ==> r == Err::<u64, FsError>(FsError::IoFailure),
    {
        proof {
            use_type_invariant(&*self);
        }
        match self.files.get(path) {
            Some(content) => {
                let bytes = content.as_str().as_bytes();
                proof {
                    vstd::slice::axiom_spec_len::<u8>(bytes);
                }
                Ok(bytes.len() as u64)
            },
            None => Err(FsError::IoFailure),
        }
    }

    fn copy_file(&mut self, from: &str, to: &str) -> (r: Result<(), FsError>)
        ensures
            r is Ok <==> old(self).model().contains_key(from@),
            r matches Err(e) ==> *final(self) == *old(self) && e == FsError::NotFound,
    {
        proof {
            use_type_invariant(&*self);
        }
        let content = match self.files.get(from) {
            Some(c) => c.clone(),
            None => {
                return Err(FsError::NotFound);
            },
        };
        let mut files = OrdMap::new();
        core::mem::swap(&mut files, &mut self.files);
        files.insert(String::from_str(to), content);
        self.files = files;
        let mut line = String::from_str("copy: `");
        line.append(from);
        line.append("` -> `");
        line.append(to);
        line.append("`");
        proof {
            assert(line@ =~= copy_line_of(from@, to@));
        }
        let mut ops: Vec<String> = Vec::new();
        core::mem::swap(&mut ops, &mut self.ops);
        ops.push(line);
        self.ops = ops;
        proof {
            assert(self.call_log() =~= old(self).call_log().push(copy_line_of(from@, to@)));
            assert(self.model() =~= old(self).model().insert(to@, old(self).model()[from@]));
        }
        Ok(())
    }

    fn move_file(&mut self, from: &str, to: &str) -> (r: Result<(), FsError>)
        ensures
            r is Ok <==> old(self).model().contains_key(from@),
            r matches Err(e) ==> *final(self) == *old(self) && e == FsError::NotFound,
    {
        proof {
            use_type_invariant(&*self);
        }
        let mut files = OrdMap::new();
        core::mem::swap(&mut files, &mut self.files);
        let removed = files.remove(from);
        match removed {
            Some(content) => {
                files.insert(String::from_str(to), content);
                self.files = files;
                let mut line = String::from_str("move: `");
                line.append(from);
                line.append("` -> `");
                line.append(to);
                line.append("`");
                proof {
                    assert(line@ =~= move_line_of(from@, to@));
                }
                let mut ops: Vec<String> = Vec::new();
        core::mem::swap(&mut ops, &mut self.ops);
        ops.push(line);
        self.ops = ops;
                proof {
                    assert(self.call_log() =~= old(self).call_log().push(move_line_of(from@, to@)));
                    assert(self.model() =~= old(self).model().remove(from@).insert(
                        to@,
                        old(self).model()[from@],
                    ));
                }
                Ok(())
            },
            None => {
                self.files = files;
                Err(FsError::NotFound)
            },
        }
    }

    fn delete_file(&mut self, path: &str) -> (r: Result<(), FsError>)
        ensures
            r is Ok <==> old(self).model().contains_key(path@),
            r matches Err(e) ==> *final(self) == *old(self) && e == FsError::NotFound,
    {
        proof {
            use_type_invariant(&*self);
        }
        let mut files = OrdMap::new();
        core::mem::swap(&mut files, &mut self.files);
        let removed = files.remove(path);
        match removed {
            Some(content) => {
                self.files = files;
                let mut line = String::from_str("delete: `");
                line.append(path);
                line.append("`");
                proof {
                    assert(line@ =~= delete_line_of(path@));
                }
                let mut ops: Vec<String> = Vec::new();
        core::mem::swap(&mut ops, &mut self.ops);
        ops.push(line);
        self.ops = ops;
                proof {
                    assert(self.call_log() =~= old(self).call_log().push(delete_line_of(path@)));
                    assert(self.model() =~= old(self).model().remove(path@));
                }
                Ok(())
            },
            None => {
                self.files = files;
                Err(FsError::NotFound)
            },
        }
    }
}

} // verus!
