//! The diff planner: compares two snapshots and produces the ordered list
//! of operations that transforms the destination into the source. Source
//! fingerprints missing from the destination become copies, in fingerprint
//! order; destination fingerprints missing from the source become deletes,
//! in fingerprint order, after all copies. A fingerprint present in both
//! snapshots yields no operation.

use vstd::prelude::*;

verus! {

use crate::blob::Blob;
use crate::fsys::{copy_line_of, delete_line_of};
use crate::ordmap::OrdMap;
use crate::pathmodel::{join_of, join_path};
use crate::snapshot::Snapshot;

/// One mutation to apply: copy a file to a new path, or delete one.
#[derive(Debug)]
pub enum FileOp {
    CopyFile { src_path: String, dst_path: String },
    DeleteFile { path: String },
}

/// The mathematical shape of a planned operation.
pub enum FileOpView {
    CopyFile { src_path: Seq<char>, dst_path: Seq<char> },
    DeleteFile { path: Seq<char> },
}

impl View for FileOp {
    type V = FileOpView;

    open spec fn view(&self) -> FileOpView {
        match self {
            FileOp::CopyFile { src_path, dst_path } => (FileOpView::CopyFile {
                src_path: src_path@,
                dst_path: dst_path@,
            }),
            FileOp::DeleteFile { path } => (FileOpView::DeleteFile { path: path@ }),
        }
    }
}

/// The views of a vector of operations, in order.
pub open spec fn op_views(ops: Seq<FileOp>) -> Seq<FileOpView> {
    ops.map_values(|o: FileOp| o@)
}

/// The capability call an executed operation logs.
pub open spec fn op_line_of(op: FileOpView) -> Seq<char> {
    match op {
        FileOpView::CopyFile { src_path, dst_path } => copy_line_of(src_path, dst_path),
        FileOpView::DeleteFile { path } => delete_line_of(path),
    }
}

/// The capability calls a whole operation list logs, in order.
pub open spec fn op_lines_of(ops: Seq<FileOpView>) -> Seq<Seq<char>> {
    ops.map_values(|o: FileOpView| op_line_of(o))
}

/// The copy planned for one source blob: its path to the destination
/// directory joined with its basename.
pub open spec fn copy_op_of(dst_dir: Seq<char>, b: Blob) -> FileOpView {
    FileOpView::CopyFile { src_path: b@.path, dst_path: join_of(dst_dir, b@.basename) }
}

/// The delete planned for one destination blob: its path.
pub open spec fn delete_op_of(b: Blob) -> FileOpView {
    FileOpView::DeleteFile { path: b@.path }
}

/// The copies for the source entries absent from the destination map, in
/// entry order.
pub open spec fn copies_of(
    dst_dir: Seq<char>,
    src_entries: Seq<(Seq<char>, Blob)>,
    dst: Map<Seq<char>, Blob>,
) -> Seq<FileOpView>
    decreases src_entries.len(),
{
    if src_entries.len() == 0 {
        Seq::<FileOpView>::empty()
    } else {
        let rest = copies_of(dst_dir, src_entries.drop_first(), dst);
        if dst.contains_key(src_entries[0].0) {
            rest
        } else {
            seq![copy_op_of(dst_dir, src_entries[0].1)] + rest
        }
    }
}

/// The deletes for the destination entries absent from the source map, in
/// entry order.
pub open spec fn deletes_of(
    dst_entries: Seq<(Seq<char>, Blob)>,
    src: Map<Seq<char>, Blob>,
) -> Seq<FileOpView>
    decreases dst_entries.len(),
{
    if dst_entries.len() == 0 {
        Seq::<FileOpView>::empty()
    } else {
        let rest = deletes_of(dst_entries.drop_first(), src);
        if src.contains_key(dst_entries[0].0) {
            rest
        } else {
            seq![delete_op_of(dst_entries[0].1)] + rest
        }
    }
}

/// The whole plan: all copies, then all deletes.
pub open spec fn plan_of(dst_dir: Seq<char>, src: Snapshot, dst: Snapshot) -> Seq<FileOpView> {
    copies_of(dst_dir, src.entry_seq(), dst@) + deletes_of(dst.entry_seq(), src@)
}

/// Extending the scanned prefix by one source entry extends the copies by
/// at most one.
proof fn lemma_copies_snoc(
    dst_dir: Seq<char>,
    s: Seq<(Seq<char>, Blob)>,
    dst: Map<Seq<char>, Blob>,
    i: int,
)
    requires
        0 <= i < s.len(),
    ensures
        copies_of(dst_dir, s.take(i + 1), dst) == copies_of(dst_dir, s.take(i), dst) + (
        if dst.contains_key(s[i].0) {
            Seq::<FileOpView>::empty()
        } else {
            seq![copy_op_of(dst_dir, s[i].1)]
        }),
    decreases i,
{
    if i == 0 {
        assert(s.take(1).drop_first() =~= Seq::<(Seq<char>, Blob)>::empty());
        assert(s.take(0) =~= Seq::<(Seq<char>, Blob)>::empty());
        if dst.contains_key(s[0].0) {
            assert(copies_of(dst_dir, s.take(1), dst) =~= copies_of(dst_dir, s.take(0), dst) + Seq::<
                FileOpView,
            >::empty());
        } else {
            assert(copies_of(dst_dir, s.take(1), dst) =~= copies_of(dst_dir, s.take(0), dst)
                + seq![copy_op_of(dst_dir, s[0].1)]);
        }
    } else {
        lemma_copies_snoc(dst_dir, s.drop_first(), dst, i - 1);
        assert(s.take(i + 1).drop_first() =~= s.drop_first().take(i));
        assert(s.take(i).drop_first() =~= s.drop_first().take(i - 1));
        assert(s.drop_first()[i - 1] == s[i]);
        if dst.contains_key(s.take(i + 1)[0].0) {
            assert(copies_of(dst_dir, s.take(i + 1), dst) == copies_of(
                dst_dir,
                s.drop_first().take(i),
                dst,
            ));
            assert(copies_of(dst_dir, s.take(i), dst) == copies_of(
                dst_dir,
                s.drop_first().take(i - 1),
                dst,
            ));
        } else {
            assert(copies_of(dst_dir, s.take(i + 1), dst) == seq![copy_op_of(dst_dir, s[0].1)]
                + copies_of(dst_dir, s.drop_first().take(i), dst));
            assert(copies_of(dst_dir, s.take(i), dst) == seq![copy_op_of(dst_dir, s[0].1)]
                + copies_of(dst_dir, s.drop_first().take(i - 1), dst));
            assert(copies_of(dst_dir, s.take(i + 1), dst) =~= copies_of(dst_dir, s.take(i), dst) + (
            if dst.contains_key(s[i].0) {
                Seq::<FileOpView>::empty()
            } else {
                seq![copy_op_of(dst_dir, s[i].1)]
            }));
        }
    }
}

/// Extending the scanned prefix by one destination entry extends the
/// deletes by at most one.
proof fn lemma_deletes_snoc(s: Seq<(Seq<char>, Blob)>, src: Map<Seq<char>, Blob>, i: int)
    requires
        0 <= i < s.len(),
    ensures
        deletes_of(s.take(i + 1), src) == deletes_of(s.take(i), src) + (
        if src.contains_key(s[i].0) {
            Seq::<FileOpView>::empty()
        } else {
            seq![delete_op_of(s[i].1)]
        }),
    decreases i,
{
    if i == 0 {
        assert(s.take(1).drop_first() =~= Seq::<(Seq<char>, Blob)>::empty());
        assert(s.take(0) =~= Seq::<(Seq<char>, Blob)>::empty());
        if src.contains_key(s[0].0) {
            assert(deletes_of(s.take(1), src) =~= deletes_of(s.take(0), src) + Seq::<
                FileOpView,
            >::empty());
        } else {
            assert(deletes_of(s.take(1), src) =~= deletes_of(s.take(0), src) + seq![
                delete_op_of(s[0].1),
            ]);
        }
    } else {
        lemma_deletes_snoc(s.drop_first(), src, i - 1);
        assert(s.take(i + 1).drop_first() =~= s.drop_first().take(i));
        assert(s.take(i).drop_first() =~= s.drop_first().take(i - 1));
        assert(s.drop_first()[i - 1] == s[i]);
        if src.contains_key(s.take(i + 1)[0].0) {
            assert(deletes_of(s.take(i + 1), src) == deletes_of(s.drop_first().take(i), src));
            assert(deletes_of(s.take(i), src) == deletes_of(s.drop_first().take(i - 1), src));
        } else {
            assert(deletes_of(s.take(i + 1), src) == seq![delete_op_of(s[0].1)] + deletes_of(
                s.drop_first().take(i),
                src,
            ));
            assert(deletes_of(s.take(i), src) == seq![delete_op_of(s[0].1)] + deletes_of(
                s.drop_first().take(i - 1),
                src,
            ));
            assert(deletes_of(s.take(i + 1), src) =~= deletes_of(s.take(i), src) + (
            if src.contains_key(s[i].0) {
                Seq::<FileOpView>::empty()
            } else {
                seq![delete_op_of(s[i].1)]
            }));
        }
    }
}

/// Produces the ordered operation list that transforms the destination
/// directory into the source: copies for source-only fingerprints in sorted
/// fingerprint order, then deletes for destination-only fingerprints in
/// sorted fingerprint order. Pure: the planner reads the snapshots and
/// cannot fail.
pub fn plan_file_movements(dst_dir: &str, src_map: &Snapshot, dst_map: &Snapshot) -> (r: Vec<
    FileOp,
>)
    requires
        src_map.wf(),
        dst_map.wf(),
    ensures
        op_views(r@) == plan_of(dst_dir@, *src_map, *dst_map),
{
    let mut file_ops: Vec<FileOp> = Vec::new();
    let src_n = src_map.len();
    let mut i: usize = 0;
    proof {
        assert(src_map.entry_seq().take(0) =~= Seq::<(Seq<char>, Blob)>::empty());
        assert(op_views(file_ops@) =~= Seq::<FileOpView>::empty());
    }
    while i < src_n
        invariant
            i <= src_n,
            src_n == src_map.spec_len(),
            src_map.wf(),
            dst_map.wf(),
            op_views(file_ops@) == copies_of(dst_dir@, src_map.entry_seq().take(i as int), dst_map@),
        decreases src_n - i,
    {
        let key = src_map.key_at(i);
        let blob = src_map.value_at(i);
        let ghost prev_ops = file_ops@;
        if !dst_map.contains(key) {
            let dst_path = join_path(dst_dir, blob.basename.as_str());
            file_ops.push(FileOp::CopyFile { src_path: blob.path.clone(), dst_path });
            proof {
                assert(op_views(file_ops@) =~= op_views(prev_ops) + seq![
                    copy_op_of(dst_dir@, src_map.entry_seq()[i as int].1),
                ]);
            }
        }
        proof {
            lemma_copies_snoc(dst_dir@, src_map.entry_seq(), dst_map@, i as int);
            if dst_map@.contains_key(src_map.entry_seq()[i as int].0) {
                assert(op_views(file_ops@) =~= copies_of(
                    dst_dir@,
                    src_map.entry_seq().take(i + 1),
                    dst_map@,
                ));
            }
        }
        i = i + 1;
    }
    proof {
        assert(src_map.entry_seq().take(src_n as int) =~= src_map.entry_seq());
        assert(dst_map.entry_seq().take(0) =~= Seq::<(Seq<char>, Blob)>::empty());
        assert(op_views(file_ops@) + deletes_of(dst_map.entry_seq().take(0), src_map@) =~= op_views(
            file_ops@,
        ));
    }
    let ghost copies = op_views(file_ops@);
    let dst_n = dst_map.len();
    let mut j: usize = 0;
    while j < dst_n
        invariant
            j <= dst_n,
            dst_n == dst_map.spec_len(),
            src_map.wf(),
            dst_map.wf(),
            copies == copies_of(dst_dir@, src_map.entry_seq(), dst_map@),
            op_views(file_ops@) == copies + deletes_of(
                dst_map.entry_seq().take(j as int),
                src_map@,
            ),
        decreases dst_n - j,
    {
        let key = dst_map.key_at(j);
        let blob = dst_map.value_at(j);
        let ghost prev_ops = file_ops@;
        if !src_map.contains(key) {
            file_ops.push(FileOp::DeleteFile { path: blob.path.clone() });
            proof {
                assert(op_views(file_ops@) =~= op_views(prev_ops) + seq![
                    delete_op_of(dst_map.entry_seq()[j as int].1),
                ]);
            }
        }
        proof {
            lemma_deletes_snoc(dst_map.entry_seq(), src_map@, j as int);
            assert(op_views(file_ops@) =~= copies + deletes_of(
                dst_map.entry_seq().take(j + 1),
                src_map@,
            ));
        }
        j = j + 1;
    }
    proof {
        assert(dst_map.entry_seq().take(dst_n as int) =~= dst_map.entry_seq());
    }
    file_ops
}

} // verus!
