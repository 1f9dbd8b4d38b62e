//! The plan executor: applies an ordered operation list against a storage
//! capability, strictly in order, stopping at the first failure. Progress
//! is reported to an observer as a side channel; it plays no part in the
//! correctness contract.

use vstd::prelude::*;

verus! {

use crate::blob::blob_of;
use crate::fsys::{FileSystem, FsError};
use crate::pathmodel::{path_wf, under_root};
use crate::fsys::list_line_of;
use crate::plan::{op_line_of, op_lines_of, op_views, plan_file_movements, plan_of, FileOp, FileOpView};
use crate::snapshot::{
    get_struct_map, snapshot_canonical, snapshot_entry_ok, snapshot_faithful, Snapshot,
};

/// What one operation does to a tree: a copy binds the destination path to
/// the source's content, a delete drops the path.
pub open spec fn apply_op(m: Map<Seq<char>, Seq<char>>, op: FileOpView) -> Map<
    Seq<char>,
    Seq<char>,
> {
    match op {
        FileOpView::CopyFile { src_path, dst_path } => m.insert(dst_path, m[src_path]),
        FileOpView::DeleteFile { path } => m.remove(path),
    }
}

/// Whether one operation can succeed on a tree: its source must exist.
pub open spec fn op_applicable(m: Map<Seq<char>, Seq<char>>, op: FileOpView) -> bool {
    match op {
        FileOpView::CopyFile { src_path, dst_path } => m.contains_key(src_path),
        FileOpView::DeleteFile { path } => m.contains_key(path),
    }
}

/// A whole list applied in order.
pub open spec fn apply_ops(m: Map<Seq<char>, Seq<char>>, ops: Seq<FileOpView>) -> Map<
    Seq<char>,
    Seq<char>,
>
    decreases ops.len(),
{
    if ops.len() == 0 {
        m
    } else {
        apply_ops(apply_op(m, ops[0]), ops.drop_first())
    }
}

/// A whole list applicable in order.
pub open spec fn ops_applicable(m: Map<Seq<char>, Seq<char>>, ops: Seq<FileOpView>) -> bool
    decreases ops.len(),
{
    if ops.len() == 0 {
        true
    } else {
        op_applicable(m, ops[0]) && ops_applicable(apply_op(m, ops[0]), ops.drop_first())
    }
}

/// Applying one more operation extends the applied prefix.
pub proof fn lemma_apply_snoc(m: Map<Seq<char>, Seq<char>>, ops: Seq<FileOpView>, i: int)
    requires
        0 <= i < ops.len(),
    ensures
        apply_ops(m, ops.take(i + 1)) == apply_op(apply_ops(m, ops.take(i)), ops[i]),
        ops_applicable(m, ops.take(i + 1)) == (ops_applicable(m, ops.take(i)) && op_applicable(
            apply_ops(m, ops.take(i)),
            ops[i],
        )),
    decreases i,
{
    if i == 0 {
        assert(ops.take(0) =~= Seq::<FileOpView>::empty());
        assert(ops.take(1).drop_first() =~= Seq::<FileOpView>::empty());
        assert(ops.take(1)[0] == ops[0]);
        assert(apply_ops(m, ops.take(1)) == apply_ops(apply_op(m, ops[0]), ops.take(1).drop_first()));
        assert(apply_ops(m, ops.take(0)) == m);
        assert(ops_applicable(m, ops.take(0)));
        assert(ops_applicable(m, ops.take(1)) == (op_applicable(m, ops[0]) && ops_applicable(
            apply_op(m, ops[0]),
            ops.take(1).drop_first(),
        )));
        assert(ops_applicable(apply_op(m, ops[0]), ops.take(1).drop_first()));
    } else {
        let m1 = apply_op(m, ops[0]);
        let tail = ops.drop_first();
        lemma_apply_snoc(m1, tail, i - 1);
        assert(ops.take(i + 1).drop_first() =~= tail.take(i));
        assert(ops.take(i).drop_first() =~= tail.take(i - 1));
        assert(tail[i - 1] == ops[i]);
        assert(ops.take(i + 1)[0] == ops[0]);
        assert(ops.take(i)[0] == ops[0]);
        assert(apply_ops(m, ops.take(i + 1)) == apply_ops(m1, tail.take(i)));
        assert(apply_ops(m, ops.take(i)) == apply_ops(m1, tail.take(i - 1)));
        assert(ops_applicable(m, ops.take(i + 1)) == (op_applicable(m, ops[0]) && ops_applicable(
            m1,
            tail.take(i),
        )));
        assert(ops_applicable(m, ops.take(i)) == (op_applicable(m, ops[0]) && ops_applicable(
            m1,
            tail.take(i - 1),
        )));
    }
}

/// Applying a concatenation applies the first part, then the second.
pub proof fn lemma_apply_concat(
    m: Map<Seq<char>, Seq<char>>,
    a: Seq<FileOpView>,
    b: Seq<FileOpView>,
)
    ensures
        apply_ops(m, a + b) == apply_ops(apply_ops(m, a), b),
        ops_applicable(m, a + b) == (ops_applicable(m, a) && ops_applicable(apply_ops(m, a), b)),
    decreases a.len(),
{
    if a.len() == 0 {
        assert(a + b =~= b);
        assert(apply_ops(m, a) == m);
        assert(ops_applicable(m, a));
    } else {
        let m1 = apply_op(m, a[0]);
        lemma_apply_concat(m1, a.drop_first(), b);
        assert((a + b)[0] == a[0]);
        assert((a + b).drop_first() =~= a.drop_first() + b);
    }
}

/// An observer of executor progress: told after each completed operation,
/// and once when the whole plan is done. A side channel only.
pub trait ProgressSink: Sized {
    fn op_done(&mut self, completed: usize);

    fn finished(&mut self);
}

/// The observer that ignores progress.
pub struct SilentProgress;

impl ProgressSink for SilentProgress {
    fn op_done(&mut self, completed: usize) {
    }

    fn finished(&mut self) {
    }
}

/// Applies every operation in order, stopping at the first failure. On
/// success the tree is the plan applied to the old tree and the capability
/// saw exactly one call per operation, in plan order; on failure some
/// prefix of the plan has been applied, and called, and the rest has not.
pub fn execute_file_movement_plan<FS: FileSystem, P: ProgressSink>(
    file_sys: &mut FS,
    file_plan: Vec<FileOp>,
    progress: &mut P,
) -> (r: Result<(), FsError>)
    ensures
        r matches Ok(u) ==> ops_applicable(old(file_sys).model(), op_views(file_plan@))
            && final(file_sys).model() == apply_ops(old(file_sys).model(), op_views(file_plan@))
            && final(file_sys).call_log() == old(file_sys).call_log() + op_lines_of(
            op_views(file_plan@),
        ),
        r matches Err(e) ==> e != FsError::PathMalformed && exists|k: int|
            0 <= k < file_plan@.len() && ops_applicable(
                old(file_sys).model(),
                #[trigger] op_views(file_plan@).take(k),
            ) && final(file_sys).model() == apply_ops(
                old(file_sys).model(),
                op_views(file_plan@).take(k),
            ) && final(file_sys).call_log() == old(file_sys).call_log() + op_lines_of(
                op_views(file_plan@).take(k),
            ),
{
    let n = file_plan.len();
    let mut i: usize = 0;
    proof {
        assert(op_views(file_plan@).take(0) =~= Seq::<FileOpView>::empty());
        assert(file_sys.call_log() + op_lines_of(op_views(file_plan@).take(0)) =~= file_sys.call_log());
    }
    while i < n
        invariant
            i <= n,
            n == file_plan@.len(),
            ops_applicable(old(file_sys).model(), op_views(file_plan@).take(i as int)),
            file_sys.model() == apply_ops(old(file_sys).model(), op_views(file_plan@).take(i as int)),
            file_sys.call_log() == old(file_sys).call_log() + op_lines_of(
                op_views(file_plan@).take(i as int),
            ),
        decreases n - i,
    {
        let op = &file_plan[i];
        let step = match op {
            FileOp::CopyFile { src_path, dst_path } => file_sys.copy_file(
                src_path.as_str(),
                dst_path.as_str(),
            ),
            FileOp::DeleteFile { path } => file_sys.delete_file(path.as_str()),
        };
        match step {
            Ok(u) => {
                proof {
                    lemma_apply_snoc(old(file_sys).model(), op_views(file_plan@), i as int);
                    assert(op_views(file_plan@)[i as int] == file_plan@[i as int]@);
                    assert(old(file_sys).call_log() + op_lines_of(
                        op_views(file_plan@).take(i + 1),
                    ) =~= (old(file_sys).call_log() + op_lines_of(
                        op_views(file_plan@).take(i as int),
                    )).push(op_line_of(op_views(file_plan@)[i as int])));
                }
            },
            Err(e) => {
                proof {
                    let k = i as int;
                    assert(ops_applicable(old(file_sys).model(), op_views(file_plan@).take(k))
                        && file_sys.model() == apply_ops(
                        old(file_sys).model(),
                        op_views(file_plan@).take(k),
                    ) && file_sys.call_log() == old(file_sys).call_log() + op_lines_of(
                        op_views(file_plan@).take(k),
                    ));
                }
                return Err(e);
            },
        }
        i = i + 1;
        progress.op_done(i);
    }
    progress.finished();
    proof {
        assert(op_views(file_plan@).take(n as int) =~= op_views(file_plan@));
    }
    Ok(())
}

/// Neither root holds any file of the tree.
pub open spec fn roots_hold_nothing(
    m: Map<Seq<char>, Seq<char>>,
    src_dir: Seq<char>,
    dst_dir: Seq<char>,
) -> bool {
    forall|p: Seq<char>|
        #[trigger] m.contains_key(p) ==> !under_root(src_dir, p) && !under_root(dst_dir, p)
}

/// What a successful run guarantees: canonical snapshots of the two
/// directories exist whose plan was applied in full to the tree, and the
/// capability saw exactly the two listings followed by one call per
/// planned operation, in plan order.
pub open spec fn rsync_ok_post(
    m0: Map<Seq<char>, Seq<char>>,
    m1: Map<Seq<char>, Seq<char>>,
    log0: Seq<Seq<char>>,
    log1: Seq<Seq<char>>,
    src_dir: Seq<char>,
    dst_dir: Seq<char>,
) -> bool {
    exists|s: Snapshot, d: Snapshot|
        {
            &&& #[trigger] snapshot_canonical(s, m0, src_dir)
            &&& #[trigger] snapshot_canonical(d, m0, dst_dir)
            &&& ops_applicable(m0, plan_of(dst_dir, s, d))
            &&& m1 == apply_ops(m0, plan_of(dst_dir, s, d))
            &&& log1 == log0.push(list_line_of(src_dir)).push(list_line_of(dst_dir))
                + op_lines_of(plan_of(dst_dir, s, d))
        }
}

/// What a failed run leaves behind: either the tree as it was (the run
/// failed while reading), or the tree after some prefix of the plan over
/// canonical snapshots — the completed operations stand, nothing is rolled
/// back.
pub open spec fn rsync_err_post(
    m0: Map<Seq<char>, Seq<char>>,
    m1: Map<Seq<char>, Seq<char>>,
    src_dir: Seq<char>,
    dst_dir: Seq<char>,
) -> bool {
    m1 == m0 || exists|s: Snapshot, d: Snapshot, k: int|
        {
            &&& #[trigger] snapshot_canonical(s, m0, src_dir)
            &&& #[trigger] snapshot_canonical(d, m0, dst_dir)
            &&& 0 <= k <= plan_of(dst_dir, s, d).len()
            &&& m1 == apply_ops(m0, #[trigger] plan_of(dst_dir, s, d).take(k))
        }
}

/// The two directories one run reconciles.
#[derive(Debug)]
pub struct Args {
    pub src_dir: String,
    pub dst_dir: String,
}

/// One whole reconciliation run: snapshot both directories, plan, execute,
/// reporting progress to the observer. On success the tree is the planned
/// operation list, taken over canonical snapshots of both directories,
/// applied in full to the old tree; when both roots hold nothing, success
/// is certain and the run is a no-op.
pub fn execute_rsync_with_progress<FS: FileSystem, P: ProgressSink>(
    args: Args,
    file_sys: &mut FS,
    progress: &mut P,
) -> (r: Result<(), FsError>)
    ensures
        r matches Ok(u) ==> rsync_ok_post(
            old(file_sys).model(),
            final(file_sys).model(),
            old(file_sys).call_log(),
            final(file_sys).call_log(),
            args.src_dir@,
            args.dst_dir@,
        ),
        r matches Err(e) ==> rsync_err_post(
            old(file_sys).model(),
            final(file_sys).model(),
            args.src_dir@,
            args.dst_dir@,
        ),
        roots_hold_nothing(old(file_sys).model(), args.src_dir@, args.dst_dir@) ==> r is Ok,
{
    let ghost m = old(file_sys).model();
    let ghost log0 = old(file_sys).call_log();
    let src_map = match get_struct_map(args.src_dir.as_str(), file_sys) {
        Ok(sm) => sm,
        Err(e) => {
            proof {
                if roots_hold_nothing(m, args.src_dir@, args.dst_dir@) {
                    assert forall|p: Seq<char>| m.contains_key(p) implies !under_root(
                        args.src_dir@,
                        p,
                    ) by {}
                    assert(false);
                }
            }
            return Err(e);
        },
    };
    let dst_map = match get_struct_map(args.dst_dir.as_str(), file_sys) {
        Ok(dm) => dm,
        Err(e) => {
            proof {
                if roots_hold_nothing(m, args.src_dir@, args.dst_dir@) {
                    assert forall|p: Seq<char>| m.contains_key(p) implies !under_root(
                        args.dst_dir@,
                        p,
                    ) by {}
                    assert(false);
                }
            }
            return Err(e);
        },
    };
    let ops_plan = plan_file_movements(args.dst_dir.as_str(), &src_map, &dst_map);
    let res = execute_file_movement_plan(file_sys, ops_plan, progress);
    proof {
        let plan = plan_of(args.dst_dir@, src_map, dst_map);
        if res is Err {
            let k = choose|k: int|
                0 <= k < plan.len() && ops_applicable(m, #[trigger] plan.take(k)) && file_sys.model()
                    == apply_ops(m, plan.take(k));
            assert(snapshot_canonical(src_map, m, args.src_dir@) && snapshot_canonical(
                dst_map,
                m,
                args.dst_dir@,
            ) && 0 <= k <= plan.len() && file_sys.model() == apply_ops(m, plan.take(k)));
        } else {
            assert(op_lines_of(op_views(ops_plan@)) == op_lines_of(plan));
            assert(snapshot_canonical(src_map, m, args.src_dir@) && snapshot_canonical(
                dst_map,
                m,
                args.dst_dir@,
            ) && ops_applicable(m, plan) && file_sys.model() == apply_ops(m, plan)
                && file_sys.call_log() == log0.push(list_line_of(args.src_dir@)).push(
                list_line_of(args.dst_dir@),
            ) + op_lines_of(plan_of(args.dst_dir@, src_map, dst_map)));
        }
        if roots_hold_nothing(m, args.src_dir@, args.dst_dir@) {
            assert(src_map.entry_seq().len() == 0) by {
                if src_map.entry_seq().len() > 0 {
                    src_map.lemma_entry_consistent(0);
                    let k0 = src_map.entry_seq()[0].0;
                    assert(snapshot_entry_ok(m, args.src_dir@, k0, src_map@[k0]));
                    let p = choose|p: Seq<char>|
                        #[trigger] m.contains_key(p) && under_root(args.src_dir@, p) && path_wf(p)
                            && src_map@[k0]@ == blob_of(p, m[p]) && k0 == src_map@[k0]@.id;
                    assert(false);
                }
            }
            assert(dst_map.entry_seq().len() == 0) by {
                if dst_map.entry_seq().len() > 0 {
                    dst_map.lemma_entry_consistent(0);
                    let k0 = dst_map.entry_seq()[0].0;
                    assert(snapshot_entry_ok(m, args.dst_dir@, k0, dst_map@[k0]));
                    let p = choose|p: Seq<char>|
                        #[trigger] m.contains_key(p) && under_root(args.dst_dir@, p) && path_wf(p)
                            && dst_map@[k0]@ == blob_of(p, m[p]) && k0 == dst_map@[k0]@.id;
                    assert(false);
                }
            }
            assert(plan =~= Seq::<FileOpView>::empty());
            assert(op_views(ops_plan@).len() == 0);
            assert(ops_plan@.len() == 0);
            if res is Err {
                let k = choose|k: int|
                    0 <= k < ops_plan@.len() && ops_applicable(
                        m,
                        #[trigger] op_views(ops_plan@).take(k),
                    ) && file_sys.model() == apply_ops(m, op_views(ops_plan@).take(k));
                assert(false);
            }
        }
    }
    res
}

/// One whole reconciliation run without progress reporting.
pub fn execute_rsync<FS: FileSystem>(args: Args, file_sys: &mut FS) -> (r: Result<(), FsError>)
    ensures
        r matches Ok(u) ==> rsync_ok_post(
            old(file_sys).model(),
            final(file_sys).model(),
            old(file_sys).call_log(),
            final(file_sys).call_log(),
            args.src_dir@,
            args.dst_dir@,
        ),
        r matches Err(e) ==> rsync_err_post(
            old(file_sys).model(),
            final(file_sys).model(),
            args.src_dir@,
            args.dst_dir@,
        ),
        roots_hold_nothing(old(file_sys).model(), args.src_dir@, args.dst_dir@) ==> r is Ok,
{
    let mut progress = SilentProgress;
    execute_rsync_with_progress(args, file_sys, &mut progress)
}

} // verus!
