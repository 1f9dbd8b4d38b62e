//! The library's model of file paths: plain strings in which `/` separates
//! components. A path is split into the parent directory (everything before
//! the last separator) and the basename (everything after it). A path is
//! well formed when both parts are non-empty; a filesystem root such as `/`
//! or a bare name without a parent component is not.

use vstd::prelude::*;

verus! {

use vstd::string::StrSliceExecFns;
use vstd::string::StringExecFns;
use crate::strorder::str_eq;

/// The index of the last `/` in `p`, or `-1` when there is none.
pub open spec fn last_slash(p: Seq<char>) -> int
    decreases p.len(),
{
    if p.len() == 0 {
        -1
    } else if p[p.len() - 1] == '/' {
        p.len() - 1
    } else {
        last_slash(p.drop_last())
    }
}

/// The basename of a path: everything after the last `/`, or the whole path
/// when there is none.
pub open spec fn basename_of(p: Seq<char>) -> Seq<char> {
    p.skip(last_slash(p) + 1)
}

/// The parent directory of a path: everything strictly before the last `/`,
/// or empty when there is none.
pub open spec fn dir_of(p: Seq<char>) -> Seq<char> {
    if last_slash(p) >= 0 {
        p.take(last_slash(p))
    } else {
        Seq::<char>::empty()
    }
}

/// A path is well formed when both its basename and its parent directory
/// are non-empty.
pub open spec fn path_wf(p: Seq<char>) -> bool {
    basename_of(p).len() > 0 && dir_of(p).len() > 0
}

/// A path lies under a root when it is the root itself or continues the
/// root with a `/`.
pub open spec fn under_root(root: Seq<char>, p: Seq<char>) -> bool {
    p == root || (p.len() > root.len() && p.take(root.len() as int) == root && p[root.len() as int]
        == '/')
}

/// A directory joined with a name: `dir`, one `/`, then `name`.
pub open spec fn join_of(dir: Seq<char>, name: Seq<char>) -> Seq<char> {
    dir + seq!['/'] + name
}

pub proof fn lemma_last_slash_bounds(p: Seq<char>)
    ensures
        -1 <= last_slash(p) < p.len(),
        last_slash(p) >= 0 ==> p[last_slash(p)] == '/',
        forall|j: int| last_slash(p) < j < p.len() ==> p[j] != '/',
    decreases p.len(),
{
    if p.len() > 0 && p[p.len() - 1] != '/' {
        lemma_last_slash_bounds(p.drop_last());
        assert forall|j: int| last_slash(p) < j < p.len() implies p[j] != '/' by {
            if j < p.len() - 1 {
                assert(p.drop_last()[j] == p[j]);
            }
        }
    }
}

/// An index holding `/` with no `/` after it is the last slash.
pub proof fn lemma_last_slash_at(p: Seq<char>, k: int)
    requires
        0 <= k < p.len(),
        p[k] == '/',
        forall|j: int| k < j < p.len() ==> p[j] != '/',
    ensures
        last_slash(p) == k,
    decreases p.len(),
{
    if k < p.len() - 1 {
        lemma_last_slash_at(p.drop_last(), k);
    }
}

/// A path without any `/` has no last slash.
pub proof fn lemma_last_slash_none(p: Seq<char>)
    requires
        forall|j: int| 0 <= j < p.len() ==> p[j] != '/',
    ensures
        last_slash(p) == -1,
    decreases p.len(),
{
    if p.len() > 0 {
        lemma_last_slash_none(p.drop_last());
    }
}

/// A basename never contains a `/`.
pub proof fn lemma_basename_no_slash(p: Seq<char>)
    ensures
        forall|j: int| 0 <= j < basename_of(p).len() ==> basename_of(p)[j] != '/',
{
    lemma_last_slash_bounds(p);
}

/// Joining a directory with a slash-free, non-empty name splits back into
/// the same directory and name, and the result lies under the directory.
pub proof fn lemma_join_splits(dir: Seq<char>, name: Seq<char>)
    requires
        dir.len() > 0,
        name.len() > 0,
        forall|j: int| 0 <= j < name.len() ==> name[j] != '/',
    ensures
        basename_of(join_of(dir, name)) == name,
        dir_of(join_of(dir, name)) == dir,
        path_wf(join_of(dir, name)),
        under_root(dir, join_of(dir, name)),
{
    let p = join_of(dir, name);
    assert(p[dir.len() as int] == '/');
    assert(forall|j: int| dir.len() < j < p.len() ==> p[j] == name[j - dir.len() - 1] && p[j]
        != '/');
    lemma_last_slash_at(p, dir.len() as int);
    assert(basename_of(p) =~= name);
    assert(dir_of(p) =~= dir);
    assert(p.take(dir.len() as int) =~= dir);
}

/// Splits a path into parent directory and basename; fails exactly on paths
/// that are not well formed.
pub fn split_path(path: &str) -> (r: Option<(String, String)>)
    ensures
        r is Some <==> path_wf(path@),
        r matches Some(p) ==> p.0@ == dir_of(path@) && p.1@ == basename_of(path@),
{
    let len = path.unicode_len();
    let mut i: usize = len;
    proof {
        lemma_last_slash_bounds(path@);
    }
    loop
        invariant
            i <= len,
            len == path@.len(),
            forall|j: int| i <= j < len ==> path@[j] != '/',
        decreases i,
    {
        if i == 0 {
            proof {
                lemma_last_slash_none(path@);
            }
            return None;
        }
        let c = path.get_char(i - 1);
        if c == '/' {
            proof {
                lemma_last_slash_at(path@, i - 1);
            }
            if i - 1 == 0 || i == len {
                // The parent directory or the basename would be empty.
                return None;
            }
            let dir = String::from_str(path.substring_char(0, i - 1));
            let base = String::from_str(path.substring_char(i, len));
            proof {
                assert(dir@ =~= dir_of(path@));
                assert(base@ =~= basename_of(path@));
            }
            return Some((dir, base));
        }
        i = i - 1;
    }
}

/// Whether a path lies under a root directory.
pub fn path_under(root: &str, path: &str) -> (r: bool)
    ensures
        r == under_root(root@, path@),
{
    if str_eq(path, root) {
        return true;
    }
    let root_len = root.unicode_len();
    let path_len = path.unicode_len();
    if path_len <= root_len {
        return false;
    }
    if path.get_char(root_len) != '/' {
        proof {
            vstd::utf8::char_u32_cast(path@[root_len as int], path@[root_len as int] as u32);
            vstd::utf8::char_u32_cast('/', '/' as u32);
        }
        return false;
    }
    let prefix = path.substring_char(0, root_len);
    let r = str_eq(prefix, root);
    proof {
        assert(prefix@ == path@.take(root_len as int));
    }
    r
}

/// Joins a directory and a file name with a `/`.
pub fn join_path(dir: &str, name: &str) -> (r: String)
    ensures
        r@ == join_of(dir@, name@),
{
    let mut out = String::from_str(dir);
    out.append("/");
    out.append(name);
    proof {
        reveal_strlit("/");
        assert(out@ =~= join_of(dir@, name@));
    }
    out
}

} // verus!
