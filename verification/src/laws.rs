//! The reconciliation laws: what executing a plan does to the destination
//! tree. The statements quantify over faithful snapshots and hold for any
//! storage capability that meets the `FileSystem` contracts.

use vstd::prelude::*;

verus! {

use crate::blob::{blob_of, fp_of, Blob};
use crate::pathmodel::{
    basename_of, join_of, lemma_basename_no_slash, lemma_join_splits, path_wf, under_root,
};
use crate::plan::{
    copies_of, copy_op_of, delete_op_of, deletes_of, plan_of, FileOpView,
};
use crate::runplan::{apply_op, apply_ops, lemma_apply_concat, op_applicable, ops_applicable};
use crate::snapshot::{
    snapshot_canonical, snapshot_entry_latest, snapshot_entry_ok, snapshot_faithful, Snapshot,
};
use crate::strorder::{lex_lt, lemma_lex_lt_trichotomy};

/// No path lies under both roots.
pub open spec fn roots_disjoint(a: Seq<char>, b: Seq<char>) -> bool {
    forall|p: Seq<char>| !(#[trigger] under_root(a, p) && #[trigger] under_root(b, p))
}

/// The fingerprint `k` is present in the tree `m` under `root`.
pub open spec fn fp_present(
    m: Map<Seq<char>, Seq<char>>,
    root: Seq<char>,
    k: Seq<char>,
) -> bool {
    exists|p: Seq<char>|
        #[trigger] m.contains_key(p) && under_root(root, p) && path_wf(p) && fp_of(p, m[p]) == k
}

/// Under the destination root, distinct files have distinct fingerprints.
pub open spec fn dst_fps_unique(m: Map<Seq<char>, Seq<char>>, root: Seq<char>) -> bool {
    forall|p1: Seq<char>, p2: Seq<char>|
        m.contains_key(p1) && #[trigger] under_root(root, p1) && path_wf(p1) && m.contains_key(p2)
            && #[trigger] under_root(root, p2) && path_wf(p2) && fp_of(p1, m[p1]) == fp_of(
            p2,
            m[p2],
        ) ==> p1 == p2
}

/// The path a planned copy of this source entry writes to.
pub open spec fn target_of(dst_dir: Seq<char>, b: Blob) -> Seq<char> {
    join_of(dst_dir, b@.basename)
}

/// Every copy the plan will make lands on a path the tree does not hold.
pub open spec fn copy_targets_fresh(
    dst_dir: Seq<char>,
    s: Snapshot,
    d: Snapshot,
    m: Map<Seq<char>, Seq<char>>,
) -> bool {
    forall|k: Seq<char>|
        #[trigger] s@.contains_key(k) && !d@.contains_key(k) ==> !m.contains_key(
            target_of(dst_dir, s@[k]),
        )
}

/// No two planned copies land on the same path.
pub open spec fn copy_targets_distinct(s: Snapshot, d: Snapshot) -> bool {
    forall|k1: Seq<char>, k2: Seq<char>|
        #[trigger] s@.contains_key(k1) && !d@.contains_key(k1) && #[trigger] s@.contains_key(k2)
            && !d@.contains_key(k2) && k1 != k2 ==> s@[k1]@.basename != s@[k2]@.basename
}

/// What the copy phase adds to the tree: each copied entry's target bound
/// to its source's content. The laws' hypotheses rule out two entries
/// sharing a target; were they to share one, the earlier entry would win.
pub open spec fn target_map(
    dst_dir: Seq<char>,
    entries: Seq<(Seq<char>, Blob)>,
    dmap: Map<Seq<char>, Blob>,
    m: Map<Seq<char>, Seq<char>>,
) -> Map<Seq<char>, Seq<char>>
    decreases entries.len(),
{
    if entries.len() == 0 {
        Map::<Seq<char>, Seq<char>>::empty()
    } else {
        let rest = target_map(dst_dir, entries.drop_first(), dmap, m);
        if dmap.contains_key(entries[0].0) {
            rest
        } else {
            rest.insert(target_of(dst_dir, entries[0].1), m[entries[0].1@.path])
        }
    }
}

/// The paths the delete phase removes.
pub open spec fn deleted_paths(
    entries: Seq<(Seq<char>, Blob)>,
    smap: Map<Seq<char>, Blob>,
) -> Set<Seq<char>> {
    Set::new(
        |p: Seq<char>|
            exists|j: int|
                0 <= j < entries.len() && !smap.contains_key(#[trigger] entries[j].0)
                    && entries[j].1@.path == p,
    )
}

/// What faithfulness says of the entry a key is bound to: it is the blob
/// of a real file under the root, and its path is recorded in it.
proof fn lemma_snapshot_entry(
    s: Snapshot,
    m: Map<Seq<char>, Seq<char>>,
    root: Seq<char>,
    k: Seq<char>,
)
    requires
        snapshot_faithful(s, m, root),
        s@.contains_key(k),
    ensures
        m.contains_key(s@[k]@.path),
        under_root(root, s@[k]@.path),
        path_wf(s@[k]@.path),
        s@[k]@ == blob_of(s@[k]@.path, m[s@[k]@.path]),
        k == s@[k]@.id,
{
    let b = s@[k];
    assert(snapshot_entry_ok(m, root, k, b));
    let p = choose|p: Seq<char>|
        #[trigger] m.contains_key(p) && under_root(root, p) && path_wf(p) && b@ == blob_of(
            p,
            m[p],
        ) && k == b@.id;
    assert(b@.path == p);
}

/// The copy target of a snapshot entry: a well-formed path directly under
/// the destination directory, whose file would carry the entry's own
/// fingerprint once it holds the source's content.
proof fn lemma_target_fp(dst_dir: Seq<char>, b: Blob, p: Seq<char>, c: Seq<char>)
    requires
        dst_dir.len() > 0,
        path_wf(p),
        b@ == blob_of(p, c),
    ensures
        path_wf(target_of(dst_dir, b)),
        under_root(dst_dir, target_of(dst_dir, b)),
        fp_of(target_of(dst_dir, b), c) == b@.id,
        basename_of(target_of(dst_dir, b)) == b@.basename,
{
    lemma_basename_no_slash(p);
    lemma_join_splits(dst_dir, basename_of(p));
}

/// A join determines the name it was made with.
proof fn lemma_join_injective(d: Seq<char>, n1: Seq<char>, n2: Seq<char>)
    requires
        join_of(d, n1) == join_of(d, n2),
    ensures
        n1 == n2,
{
    assert(join_of(d, n1).len() == d.len() + 1 + n1.len());
    assert(join_of(d, n2).len() == d.len() + 1 + n2.len());
    assert(n1.len() == n2.len());
    assert(n1 =~= join_of(d, n1).skip(d.len() as int + 1));
    assert(n2 =~= join_of(d, n2).skip(d.len() as int + 1));
}

/// In a faithful snapshot, distinct entries describe distinct paths.
proof fn lemma_snapshot_paths_distinct(
    s: Snapshot,
    m: Map<Seq<char>, Seq<char>>,
    root: Seq<char>,
)
    requires
        snapshot_faithful(s, m, root),
    ensures
        forall|i: int, j: int|
            0 <= i < s.entry_seq().len() && 0 <= j < s.entry_seq().len() && i != j
                ==> #[trigger] s.entry_seq()[i].1@.path != #[trigger] s.entry_seq()[j].1@.path,
{
    assert forall|i: int, j: int|
        0 <= i < s.entry_seq().len() && 0 <= j < s.entry_seq().len() && i != j
        implies #[trigger] s.entry_seq()[i].1@.path != #[trigger] s.entry_seq()[j].1@.path by {
        if s.entry_seq()[i].1@.path == s.entry_seq()[j].1@.path {
            s.lemma_entry_consistent(i);
            s.lemma_entry_consistent(j);
            lemma_snapshot_entry(s, m, root, s.entry_seq()[i].0);
            lemma_snapshot_entry(s, m, root, s.entry_seq()[j].0);
            assert(s.entry_seq()[i].0 == s.entry_seq()[j].0);
            s.lemma_key_unique(i, j);
        }
    }
}

/// The copy phase only depends on the tree through the sources it reads.
proof fn lemma_target_map_congruent(
    dst_dir: Seq<char>,
    entries: Seq<(Seq<char>, Blob)>,
    dmap: Map<Seq<char>, Blob>,
    m1: Map<Seq<char>, Seq<char>>,
    m2: Map<Seq<char>, Seq<char>>,
)
    requires
        forall|j: int|
            0 <= j < entries.len() && !dmap.contains_key(#[trigger] entries[j].0) ==> m1[entries[j].1@.path]
                == m2[entries[j].1@.path],
    ensures
        target_map(dst_dir, entries, dmap, m1) == target_map(dst_dir, entries, dmap, m2),
    decreases entries.len(),
{
    if entries.len() > 0 {
        assert forall|j: int|
            0 <= j < entries.drop_first().len() && !dmap.contains_key(
                #[trigger] entries.drop_first()[j].0,
            ) implies m1[entries.drop_first()[j].1@.path] == m2[entries.drop_first()[j].1@.path] by {
            assert(entries.drop_first()[j] == entries[j + 1]);
        }
        lemma_target_map_congruent(dst_dir, entries.drop_first(), dmap, m1, m2);
    }
}

/// Applying the copy phase: every copy succeeds and the tree afterwards is
/// the old tree with the target map laid over it.
proof fn lemma_apply_copies(
    dst_dir: Seq<char>,
    entries: Seq<(Seq<char>, Blob)>,
    dmap: Map<Seq<char>, Blob>,
    m: Map<Seq<char>, Seq<char>>,
)
    requires
        forall|j: int|
            0 <= j < entries.len() && !dmap.contains_key(#[trigger] entries[j].0) ==> m.contains_key(
                entries[j].1@.path,
            ),
        forall|j: int|
            0 <= j < entries.len() && !dmap.contains_key(#[trigger] entries[j].0)
                ==> !m.contains_key(target_of(dst_dir, entries[j].1)),
        forall|j1: int, j2: int|
            0 <= j1 < entries.len() && 0 <= j2 < entries.len() && j1 != j2 && !dmap.contains_key(
                entries[j1].0,
            ) && !dmap.contains_key(entries[j2].0) ==> target_of(dst_dir, #[trigger] entries[j1].1)
                != target_of(dst_dir, #[trigger] entries[j2].1),
        forall|j1: int, j2: int|
            0 <= j1 < entries.len() && 0 <= j2 < entries.len() && !dmap.contains_key(
                entries[j2].0,
            ) ==> #[trigger] entries[j1].1@.path != target_of(dst_dir, #[trigger] entries[j2].1),
    ensures
        ops_applicable(m, copies_of(dst_dir, entries, dmap)),
        apply_ops(m, copies_of(dst_dir, entries, dmap)) == m.union_prefer_right(
            target_map(dst_dir, entries, dmap, m),
        ),
    decreases entries.len(),
{
    let ops = copies_of(dst_dir, entries, dmap);
    let tm = target_map(dst_dir, entries, dmap, m);
    if entries.len() == 0 {
        assert(apply_ops(m, ops) == m);
        assert(m.union_prefer_right(tm) =~= m);
    } else {
        let tail = entries.drop_first();
        if dmap.contains_key(entries[0].0) {
            assert forall|j: int|
                0 <= j < tail.len() && !dmap.contains_key(#[trigger] tail[j].0) implies (
            m.contains_key(tail[j].1@.path) && !m.contains_key(target_of(dst_dir, tail[j].1))) by {
                assert(tail[j] == entries[j + 1]);
            }
            assert forall|j1: int, j2: int|
                0 <= j1 < tail.len() && 0 <= j2 < tail.len() && j1 != j2 && !dmap.contains_key(
                    tail[j1].0,
                ) && !dmap.contains_key(tail[j2].0) implies target_of(dst_dir, #[trigger] tail[j1].1)
                != target_of(dst_dir, #[trigger] tail[j2].1) by {
                assert(tail[j1] == entries[j1 + 1] && tail[j2] == entries[j2 + 1]);
            }
            assert forall|j1: int, j2: int|
                0 <= j1 < tail.len() && 0 <= j2 < tail.len() && !dmap.contains_key(tail[j2].0)
                implies #[trigger] tail[j1].1@.path != target_of(
                dst_dir,
                #[trigger] tail[j2].1,
            ) by {
                assert(tail[j1] == entries[j1 + 1] && tail[j2] == entries[j2 + 1]);
            }
            lemma_apply_copies(dst_dir, tail, dmap, m);
            assert(ops == copies_of(dst_dir, tail, dmap));
            assert(tm == target_map(dst_dir, tail, dmap, m));
        } else {
            let t0 = target_of(dst_dir, entries[0].1);
            let p0 = entries[0].1@.path;
            let m1 = m.insert(t0, m[p0]);
            let op0 = copy_op_of(dst_dir, entries[0].1);
            assert(ops == seq![op0] + copies_of(dst_dir, tail, dmap));
            assert(ops[0] == op0);
            assert(ops.drop_first() =~= copies_of(dst_dir, tail, dmap));
            assert(op_applicable(m, op0));
            assert(apply_op(m, op0) == m1);
            // The tail's preconditions over the updated tree.
            assert forall|j: int|
                0 <= j < tail.len() && !dmap.contains_key(#[trigger] tail[j].0) implies (
            m1.contains_key(tail[j].1@.path) && !m1.contains_key(
                target_of(dst_dir, tail[j].1),
            )) by {
                assert(tail[j] == entries[j + 1]);
                assert(entries[j + 1].1@.path != t0);
                assert(target_of(dst_dir, tail[j].1) != t0);
            }
            assert forall|j1: int, j2: int|
                0 <= j1 < tail.len() && 0 <= j2 < tail.len() && j1 != j2 && !dmap.contains_key(
                    tail[j1].0,
                ) && !dmap.contains_key(tail[j2].0) implies target_of(dst_dir, #[trigger] tail[j1].1)
                != target_of(dst_dir, #[trigger] tail[j2].1) by {
                assert(tail[j1] == entries[j1 + 1] && tail[j2] == entries[j2 + 1]);
            }
            assert forall|j1: int, j2: int|
                0 <= j1 < tail.len() && 0 <= j2 < tail.len() && !dmap.contains_key(tail[j2].0)
                implies #[trigger] tail[j1].1@.path != target_of(
                dst_dir,
                #[trigger] tail[j2].1,
            ) by {
                assert(tail[j1] == entries[j1 + 1] && tail[j2] == entries[j2 + 1]);
            }
            lemma_apply_copies(dst_dir, tail, dmap, m1);
            // Contents read by the tail are unchanged by the first copy.
            assert forall|j: int|
                0 <= j < tail.len() && !dmap.contains_key(#[trigger] tail[j].0) implies m1[tail[j].1@.path]
                == m[tail[j].1@.path] by {
                assert(tail[j] == entries[j + 1]);
                assert(entries[j + 1].1@.path != t0);
            }
            lemma_target_map_congruent(dst_dir, tail, dmap, m1, m);
            assert(apply_ops(m, ops) == apply_ops(m1, copies_of(dst_dir, tail, dmap)));
            assert(apply_ops(m, ops) == m1.union_prefer_right(target_map(dst_dir, tail, dmap, m)));
            assert(tm == target_map(dst_dir, tail, dmap, m).insert(t0, m[p0]));
            assert(m1.union_prefer_right(target_map(dst_dir, tail, dmap, m)) =~= m.union_prefer_right(
                tm,
            )) by {
                // `t0` is no tail target, so both sides bind it to `m[p0]`.
                if target_map(dst_dir, tail, dmap, m).contains_key(t0) {
                    lemma_target_map_domain(dst_dir, tail, dmap, m);
                    let j = choose|j: int|
                        0 <= j < tail.len() && !dmap.contains_key(#[trigger] tail[j].0)
                            && target_of(dst_dir, tail[j].1) == t0;
                    assert(tail[j] == entries[j + 1]);
                    assert(false);
                }
            }
        }
    }
}

/// The domain of the target map: exactly the copied entries' targets; each
/// target holds its source's content when targets are distinct.
proof fn lemma_target_map_domain(
    dst_dir: Seq<char>,
    entries: Seq<(Seq<char>, Blob)>,
    dmap: Map<Seq<char>, Blob>,
    m: Map<Seq<char>, Seq<char>>,
)
    ensures
        forall|q: Seq<char>|
            #[trigger] target_map(dst_dir, entries, dmap, m).contains_key(q) <==> exists|j: int|
                0 <= j < entries.len() && !dmap.contains_key(#[trigger] entries[j].0) && target_of(
                    dst_dir,
                    entries[j].1,
                ) == q,
    decreases entries.len(),
{
    let tm = target_map(dst_dir, entries, dmap, m);
    if entries.len() == 0 {
    } else {
        let tail = entries.drop_first();
        lemma_target_map_domain(dst_dir, tail, dmap, m);
        assert forall|q: Seq<char>| #[trigger] tm.contains_key(q) implies exists|j: int|
            0 <= j < entries.len() && !dmap.contains_key(#[trigger] entries[j].0) && target_of(
                dst_dir,
                entries[j].1,
            ) == q by {
            if dmap.contains_key(entries[0].0) || q != target_of(dst_dir, entries[0].1) {
                assert(target_map(dst_dir, tail, dmap, m).contains_key(q));
                let j = choose|j: int|
                    0 <= j < tail.len() && !dmap.contains_key(#[trigger] tail[j].0) && target_of(
                        dst_dir,
                        tail[j].1,
                    ) == q;
                assert(entries[j + 1] == tail[j]);
                assert(!dmap.contains_key(entries[j + 1].0) && target_of(dst_dir, entries[j + 1].1)
                    == q);
            } else {
                assert(!dmap.contains_key(entries[0].0) && target_of(dst_dir, entries[0].1) == q);
            }
        }
        assert forall|q: Seq<char>|
            (exists|j: int|
                0 <= j < entries.len() && !dmap.contains_key(#[trigger] entries[j].0) && target_of(
                    dst_dir,
                    entries[j].1,
                ) == q) implies #[trigger] tm.contains_key(q) by {
            let j = choose|j: int|
                0 <= j < entries.len() && !dmap.contains_key(#[trigger] entries[j].0) && target_of(
                    dst_dir,
                    entries[j].1,
                ) == q;
            if j > 0 {
                assert(tail[j - 1] == entries[j]);
                assert(!dmap.contains_key(tail[j - 1].0) && target_of(dst_dir, tail[j - 1].1) == q);
                assert(target_map(dst_dir, tail, dmap, m).contains_key(q));
            }
        }
    }
}

/// What each target of the copy phase holds: its (unique) source's content.
proof fn lemma_target_map_values(
    dst_dir: Seq<char>,
    entries: Seq<(Seq<char>, Blob)>,
    dmap: Map<Seq<char>, Blob>,
    m: Map<Seq<char>, Seq<char>>,
)
    requires
        forall|j1: int, j2: int|
            0 <= j1 < entries.len() && 0 <= j2 < entries.len() && j1 != j2 && !dmap.contains_key(
                entries[j1].0,
            ) && !dmap.contains_key(entries[j2].0) ==> target_of(dst_dir, #[trigger] entries[j1].1)
                != target_of(dst_dir, #[trigger] entries[j2].1),
    ensures
        forall|j: int|
            0 <= j < entries.len() && !dmap.contains_key(#[trigger] entries[j].0) ==> {
                let tm = target_map(dst_dir, entries, dmap, m);
                tm.contains_key(target_of(dst_dir, entries[j].1)) && tm[target_of(
                    dst_dir,
                    entries[j].1,
                )] == m[entries[j].1@.path]
            },
    decreases entries.len(),
{
    let tm = target_map(dst_dir, entries, dmap, m);
    if entries.len() > 0 {
        let tail = entries.drop_first();
        assert forall|j1: int, j2: int|
            0 <= j1 < tail.len() && 0 <= j2 < tail.len() && j1 != j2 && !dmap.contains_key(
                tail[j1].0,
            ) && !dmap.contains_key(tail[j2].0) implies target_of(dst_dir, #[trigger] tail[j1].1)
            != target_of(dst_dir, #[trigger] tail[j2].1) by {
            assert(tail[j1] == entries[j1 + 1] && tail[j2] == entries[j2 + 1]);
        }
        lemma_target_map_values(dst_dir, tail, dmap, m);
        lemma_target_map_domain(dst_dir, tail, dmap, m);
        assert forall|j: int|
            0 <= j < entries.len() && !dmap.contains_key(#[trigger] entries[j].0) implies (
        tm.contains_key(target_of(dst_dir, entries[j].1)) && tm[target_of(dst_dir, entries[j].1)]
            == m[entries[j].1@.path]) by {
            let tmt = target_map(dst_dir, tail, dmap, m);
            if j == 0 {
                if dmap.contains_key(entries[0].0) {
                } else {
                    assert(tm == tmt.insert(target_of(dst_dir, entries[0].1), m[entries[0].1@.path]));
                }
            } else {
                assert(tail[j - 1] == entries[j]);
                assert(tmt.contains_key(target_of(dst_dir, tail[j - 1].1)) && tmt[target_of(
                    dst_dir,
                    tail[j - 1].1,
                )] == m[tail[j - 1].1@.path]);
                if !dmap.contains_key(entries[0].0) {
                    // The head's target differs from this tail target.
                    assert(target_of(dst_dir, entries[0].1) != target_of(dst_dir, entries[j].1));
                }
            }
        }
    }
}

/// Applying the delete phase: every delete succeeds and exactly the doomed
/// paths leave the tree.
proof fn lemma_apply_deletes(
    entries: Seq<(Seq<char>, Blob)>,
    smap: Map<Seq<char>, Blob>,
    m: Map<Seq<char>, Seq<char>>,
)
    requires
        forall|j: int|
            0 <= j < entries.len() && !smap.contains_key(#[trigger] entries[j].0) ==> m.contains_key(
                entries[j].1@.path,
            ),
        forall|j1: int, j2: int|
            0 <= j1 < entries.len() && 0 <= j2 < entries.len() && j1 != j2
                ==> #[trigger] entries[j1].1@.path != #[trigger] entries[j2].1@.path,
    ensures
        ops_applicable(m, deletes_of(entries, smap)),
        apply_ops(m, deletes_of(entries, smap)) == m.remove_keys(deleted_paths(entries, smap)),
    decreases entries.len(),
{
    let ops = deletes_of(entries, smap);
    let dp = deleted_paths(entries, smap);
    if entries.len() == 0 {
        assert(m.remove_keys(dp) =~= m);
    } else {
        let tail = entries.drop_first();
        let dpt = deleted_paths(tail, smap);
        assert forall|j: int|
            0 <= j < tail.len() && !smap.contains_key(#[trigger] tail[j].0) implies m.contains_key(
            tail[j].1@.path,
        ) by {
            assert(tail[j] == entries[j + 1]);
        }
        assert forall|j1: int, j2: int|
            0 <= j1 < tail.len() && 0 <= j2 < tail.len() && j1 != j2
            implies #[trigger] tail[j1].1@.path != #[trigger] tail[j2].1@.path by {
            assert(tail[j1] == entries[j1 + 1] && tail[j2] == entries[j2 + 1]);
        }
        if smap.contains_key(entries[0].0) {
            lemma_apply_deletes(tail, smap, m);
            assert(ops == deletes_of(tail, smap));
            assert(dp =~= dpt) by {
                assert forall|p: Seq<char>| dp.contains(p) implies dpt.contains(p) by {
                    let j = choose|j: int|
                        0 <= j < entries.len() && !smap.contains_key(#[trigger] entries[j].0)
                            && entries[j].1@.path == p;
                    assert(tail[j - 1] == entries[j]);
                    assert(!smap.contains_key(tail[j - 1].0) && tail[j - 1].1@.path == p);
                }
                assert forall|p: Seq<char>| dpt.contains(p) implies dp.contains(p) by {
                    let j = choose|j: int|
                        0 <= j < tail.len() && !smap.contains_key(#[trigger] tail[j].0)
                            && tail[j].1@.path == p;
                    assert(entries[j + 1] == tail[j]);
                    assert(!smap.contains_key(entries[j + 1].0) && entries[j + 1].1@.path == p);
                }
            }
            assert(m.remove_keys(dp) =~= m.remove_keys(dpt));
        } else {
            let p0 = entries[0].1@.path;
            let op0 = delete_op_of(entries[0].1);
            let m1 = m.remove(p0);
            assert(ops == seq![op0] + deletes_of(tail, smap));
            assert(ops[0] == op0);
            assert(ops.drop_first() =~= deletes_of(tail, smap));
            assert(op_applicable(m, op0));
            assert(apply_op(m, op0) == m1);
            assert forall|j: int|
                0 <= j < tail.len() && !smap.contains_key(#[trigger] tail[j].0)
                implies m1.contains_key(tail[j].1@.path) by {
                assert(tail[j] == entries[j + 1]);
                assert(entries[j + 1].1@.path != p0);
            }
            lemma_apply_deletes(tail, smap, m1);
            assert(apply_ops(m, ops) == apply_ops(m1, deletes_of(tail, smap)));
            assert(dp =~= dpt.insert(p0)) by {
                assert forall|p: Seq<char>| dp.contains(p) && p != p0 implies dpt.contains(p) by {
                    let j = choose|j: int|
                        0 <= j < entries.len() && !smap.contains_key(#[trigger] entries[j].0)
                            && entries[j].1@.path == p;
                    assert(j != 0);
                    assert(tail[j - 1] == entries[j]);
                    assert(!smap.contains_key(tail[j - 1].0) && tail[j - 1].1@.path == p);
                }
                assert forall|p: Seq<char>| dpt.contains(p) implies dp.contains(p) by {
                    let j = choose|j: int|
                        0 <= j < tail.len() && !smap.contains_key(#[trigger] tail[j].0)
                            && tail[j].1@.path == p;
                    assert(entries[j + 1] == tail[j]);
                    assert(!smap.contains_key(entries[j + 1].0) && entries[j + 1].1@.path == p);
                }
                assert(dp.contains(p0));
            }
            assert(m1.remove_keys(dpt) =~= m.remove_keys(dp));
        }
    }
}

/// The full effect of one plan on the tree: every operation succeeds, and
/// the result is the old tree with every copy target laid over it and
/// every superseded destination path removed.
pub proof fn lemma_plan_effect(
    m: Map<Seq<char>, Seq<char>>,
    src_root: Seq<char>,
    dst_root: Seq<char>,
    s: Snapshot,
    d: Snapshot,
)
    requires
        snapshot_faithful(s, m, src_root),
        snapshot_faithful(d, m, dst_root),
        dst_root.len() > 0,
        roots_disjoint(src_root, dst_root),
        copy_targets_fresh(dst_root, s, d, m),
        copy_targets_distinct(s, d),
    ensures
        ops_applicable(m, plan_of(dst_root, s, d)),
        apply_ops(m, plan_of(dst_root, s, d)) == m.union_prefer_right(
            target_map(dst_root, s.entry_seq(), d@, m),
        ).remove_keys(deleted_paths(d.entry_seq(), s@)),
{
    let se = s.entry_seq();
    let de = d.entry_seq();
    let copies = copies_of(dst_root, se, d@);
    let dels = deletes_of(de, s@);
    assert forall|j: int| 0 <= j < se.len() implies {
        &&& m.contains_key(#[trigger] se[j].1@.path)
        &&& under_root(src_root, se[j].1@.path)
        &&& s@.contains_key(se[j].0)
        &&& s@[se[j].0] == se[j].1
    } by {
        s.lemma_entry_consistent(j);
        lemma_snapshot_entry(s, m, src_root, se[j].0);
    }
    assert forall|j: int|
        0 <= j < se.len() && !d@.contains_key(#[trigger] se[j].0) implies !m.contains_key(
        target_of(dst_root, se[j].1),
    ) by {
        s.lemma_entry_consistent(j);
        assert(!m.contains_key(target_of(dst_root, s@[se[j].0])));
    }
    assert forall|j1: int, j2: int|
        0 <= j1 < se.len() && 0 <= j2 < se.len() && j1 != j2 && !d@.contains_key(se[j1].0)
            && !d@.contains_key(se[j2].0) implies target_of(dst_root, #[trigger] se[j1].1)
        != target_of(dst_root, #[trigger] se[j2].1) by {
        s.lemma_entry_consistent(j1);
        s.lemma_entry_consistent(j2);
        if se[j1].0 == se[j2].0 {
            s.lemma_key_unique(j1, j2);
        }
        assert(se[j1].1@.basename != se[j2].1@.basename);
        if target_of(dst_root, se[j1].1) == target_of(dst_root, se[j2].1) {
            lemma_join_injective(dst_root, se[j1].1@.basename, se[j2].1@.basename);
        }
    }
    assert forall|j1: int, j2: int|
        0 <= j1 < se.len() && 0 <= j2 < se.len() && !d@.contains_key(se[j2].0)
        implies #[trigger] se[j1].1@.path != target_of(dst_root, #[trigger] se[j2].1) by {
        s.lemma_entry_consistent(j1);
        s.lemma_entry_consistent(j2);
        lemma_snapshot_entry(s, m, src_root, se[j1].0);
        lemma_snapshot_entry(s, m, src_root, se[j2].0);
        lemma_target_fp(dst_root, se[j2].1, se[j2].1@.path, m[se[j2].1@.path]);
        assert(under_root(src_root, se[j1].1@.path));
        assert(under_root(dst_root, target_of(dst_root, se[j2].1)));
    }
    lemma_apply_copies(dst_root, se, d@, m);
    let m1 = m.union_prefer_right(target_map(dst_root, se, d@, m));
    lemma_snapshot_paths_distinct(d, m, dst_root);
    assert forall|j: int|
        0 <= j < de.len() && !s@.contains_key(#[trigger] de[j].0) implies m1.contains_key(
        de[j].1@.path,
    ) by {
        d.lemma_entry_consistent(j);
        lemma_snapshot_entry(d, m, dst_root, de[j].0);
    }
    lemma_apply_deletes(de, s@, m1);
    lemma_apply_concat(m, copies, dels);
    assert(plan_of(dst_root, s, d) == copies + dels);
}

/// **Completeness.** After the plan runs, the fingerprints present in the
/// destination tree are exactly the fingerprints of the source snapshot
/// taken at planning time. Holds whenever the two snapshots faithfully
/// describe disjoint roots, destination files carry distinct fingerprints,
/// and no planned copy lands on a path that already exists.
pub proof fn lemma_completeness(
    m: Map<Seq<char>, Seq<char>>,
    src_root: Seq<char>,
    dst_root: Seq<char>,
    s: Snapshot,
    d: Snapshot,
)
    requires
        snapshot_faithful(s, m, src_root),
        snapshot_faithful(d, m, dst_root),
        dst_root.len() > 0,
        roots_disjoint(src_root, dst_root),
        dst_fps_unique(m, dst_root),
        copy_targets_fresh(dst_root, s, d, m),
        copy_targets_distinct(s, d),
    ensures
        ops_applicable(m, plan_of(dst_root, s, d)),
        forall|k: Seq<char>|
            fp_present(apply_ops(m, plan_of(dst_root, s, d)), dst_root, k)
                <==> #[trigger] s@.contains_key(k),
{
    lemma_plan_effect(m, src_root, dst_root, s, d);
    let se = s.entry_seq();
    let de = d.entry_seq();
    let tm = target_map(dst_root, se, d@, m);
    let dp = deleted_paths(de, s@);
    let m2 = apply_ops(m, plan_of(dst_root, s, d));
    lemma_target_map_domain(dst_root, se, d@, m);
    assert forall|j1: int, j2: int|
        0 <= j1 < se.len() && 0 <= j2 < se.len() && j1 != j2 && !d@.contains_key(se[j1].0)
            && !d@.contains_key(se[j2].0) implies target_of(dst_root, #[trigger] se[j1].1)
        != target_of(dst_root, #[trigger] se[j2].1) by {
        s.lemma_entry_consistent(j1);
        s.lemma_entry_consistent(j2);
        if se[j1].0 == se[j2].0 {
            s.lemma_key_unique(j1, j2);
        }
        if target_of(dst_root, se[j1].1) == target_of(dst_root, se[j2].1) {
            lemma_join_injective(dst_root, se[j1].1@.basename, se[j2].1@.basename);
        }
    }
    lemma_target_map_values(dst_root, se, d@, m);
    lemma_snapshot_paths_distinct(d, m, dst_root);
    assert forall|k: Seq<char>| #[trigger] s@.contains_key(k) implies fp_present(
        m2,
        dst_root,
        k,
    ) by {
        if d@.contains_key(k) {
            lemma_snapshot_entry(d, m, dst_root, k);
            let q = d@[k]@.path;
            if tm.contains_key(q) {
                let j = choose|j: int|
                    0 <= j < se.len() && !d@.contains_key(#[trigger] se[j].0) && target_of(
                        dst_root,
                        se[j].1,
                    ) == q;
                s.lemma_entry_consistent(j);
                assert(!m.contains_key(target_of(dst_root, s@[se[j].0])));
                assert(false);
            }
            if dp.contains(q) {
                let j = choose|j: int|
                    0 <= j < de.len() && !s@.contains_key(#[trigger] de[j].0) && de[j].1@.path
                        == q;
                d.lemma_index_of(k);
                let i = d.index_of(k);
                d.lemma_entry_consistent(i);
                assert(de[i].1 == d@[k]);
                assert(de[i].1@.path == q);
                assert(j == i);
                assert(false);
            }
            assert(m2.contains_key(q) && m2[q] == m[q]);
            assert(fp_present(m2, dst_root, k));
        } else {
            s.lemma_index_of(k);
            let i = s.index_of(k);
            s.lemma_entry_consistent(i);
            lemma_snapshot_entry(s, m, src_root, k);
            let b = s@[k];
            let t = target_of(dst_root, b);
            assert(se[i].1 == b && se[i].0 == k);
            assert(tm.contains_key(t) && tm[t] == m[b@.path]);
            if dp.contains(t) {
                let j = choose|j: int|
                    0 <= j < de.len() && !s@.contains_key(#[trigger] de[j].0) && de[j].1@.path
                        == t;
                d.lemma_entry_consistent(j);
                lemma_snapshot_entry(d, m, dst_root, de[j].0);
                assert(m.contains_key(t));
                assert(!m.contains_key(target_of(dst_root, s@[k])));
                assert(false);
            }
            assert(m2.contains_key(t) && m2[t] == m[b@.path]);
            lemma_target_fp(dst_root, b, b@.path, m[b@.path]);
            assert(m2.contains_key(t) && under_root(dst_root, t) && path_wf(t) && fp_of(t, m2[t])
                == k);
            assert(fp_present(m2, dst_root, k));
        }
    }
    assert forall|k: Seq<char>| fp_present(m2, dst_root, k) implies #[trigger] s@.contains_key(
        k,
    ) by {
        let q = choose|q: Seq<char>|
            #[trigger] m2.contains_key(q) && under_root(dst_root, q) && path_wf(q) && fp_of(
                q,
                m2[q],
            ) == k;
        if tm.contains_key(q) {
            let j = choose|j: int|
                0 <= j < se.len() && !d@.contains_key(#[trigger] se[j].0) && target_of(
                    dst_root,
                    se[j].1,
                ) == q;
            s.lemma_entry_consistent(j);
            lemma_snapshot_entry(s, m, src_root, se[j].0);
            lemma_target_fp(dst_root, se[j].1, se[j].1@.path, m[se[j].1@.path]);
            assert(m2[q] == tm[q]);
            assert(tm[q] == m[se[j].1@.path]);
            assert(fp_of(q, m2[q]) == se[j].0);
            assert(s@.contains_key(se[j].0));
        } else {
            assert(m.contains_key(q) && m2[q] == m[q]);
            assert(d@.contains_key(fp_of(q, m[q])));
            if !s@.contains_key(k) {
                lemma_snapshot_entry(d, m, dst_root, k);
                let p2 = d@[k]@.path;
                assert(fp_of(p2, m[p2]) == k);
                assert(q == p2);
                d.lemma_index_of(k);
                let i = d.index_of(k);
                d.lemma_entry_consistent(i);
                assert(de[i].0 == k && de[i].1 == d@[k]);
                assert(de[i].1@.path == q);
                assert(dp.contains(q));
                assert(!m2.contains_key(q));
                assert(false);
            }
        }
    }
}

/// Every planned copy is the copy of some source-only entry.
proof fn lemma_copies_elems(
    dst_dir: Seq<char>,
    entries: Seq<(Seq<char>, Blob)>,
    dmap: Map<Seq<char>, Blob>,
)
    ensures
        forall|i: int|
            0 <= i < copies_of(dst_dir, entries, dmap).len() ==> exists|j: int|
                0 <= j < entries.len() && !dmap.contains_key(#[trigger] entries[j].0) && (
                #[trigger] copies_of(dst_dir, entries, dmap)[i]) == copy_op_of(
                    dst_dir,
                    entries[j].1,
                ),
    decreases entries.len(),
{
    let ops = copies_of(dst_dir, entries, dmap);
    if entries.len() > 0 {
        let tail = entries.drop_first();
        lemma_copies_elems(dst_dir, tail, dmap);
        let tops = copies_of(dst_dir, tail, dmap);
        assert forall|i: int| 0 <= i < ops.len() implies exists|j: int|
            0 <= j < entries.len() && !dmap.contains_key(#[trigger] entries[j].0) && (
            #[trigger] ops[i]) == copy_op_of(dst_dir, entries[j].1) by {
            if dmap.contains_key(entries[0].0) {
                let j = choose|j: int|
                    0 <= j < tail.len() && !dmap.contains_key(#[trigger] tail[j].0) && tops[i]
                        == copy_op_of(dst_dir, tail[j].1);
                assert(entries[j + 1] == tail[j]);
                assert(!dmap.contains_key(entries[j + 1].0) && ops[i] == copy_op_of(
                    dst_dir,
                    entries[j + 1].1,
                ));
            } else {
                if i == 0 {
                    assert(ops[0] == copy_op_of(dst_dir, entries[0].1));
                    assert(!dmap.contains_key(entries[0].0) && ops[0] == copy_op_of(
                        dst_dir,
                        entries[0].1,
                    ));
                } else {
                    assert(ops[i] == tops[i - 1]);
                    let j = choose|j: int|
                        0 <= j < tail.len() && !dmap.contains_key(#[trigger] tail[j].0) && tops[i
                            - 1] == copy_op_of(dst_dir, tail[j].1);
                    assert(entries[j + 1] == tail[j]);
                    assert(!dmap.contains_key(entries[j + 1].0) && ops[i] == copy_op_of(
                        dst_dir,
                        entries[j + 1].1,
                    ));
                }
            }
        }
    }
}

/// Every planned delete is the delete of some destination-only entry.
proof fn lemma_deletes_elems(entries: Seq<(Seq<char>, Blob)>, smap: Map<Seq<char>, Blob>)
    ensures
        forall|i: int|
            0 <= i < deletes_of(entries, smap).len() ==> exists|j: int|
                0 <= j < entries.len() && !smap.contains_key(#[trigger] entries[j].0) && (
                #[trigger] deletes_of(entries, smap)[i]) == delete_op_of(entries[j].1),
    decreases entries.len(),
{
    let ops = deletes_of(entries, smap);
    if entries.len() > 0 {
        let tail = entries.drop_first();
        lemma_deletes_elems(tail, smap);
        let tops = deletes_of(tail, smap);
        assert forall|i: int| 0 <= i < ops.len() implies exists|j: int|
            0 <= j < entries.len() && !smap.contains_key(#[trigger] entries[j].0) && (
            #[trigger] ops[i]) == delete_op_of(entries[j].1) by {
            if smap.contains_key(entries[0].0) {
                let j = choose|j: int|
                    0 <= j < tail.len() && !smap.contains_key(#[trigger] tail[j].0) && tops[i]
                        == delete_op_of(tail[j].1);
                assert(entries[j + 1] == tail[j]);
                assert(!smap.contains_key(entries[j + 1].0) && ops[i] == delete_op_of(
                    entries[j + 1].1,
                ));
            } else {
                if i == 0 {
                    assert(ops[0] == delete_op_of(entries[0].1));
                    assert(!smap.contains_key(entries[0].0) && ops[0] == delete_op_of(
                        entries[0].1,
                    ));
                } else {
                    assert(ops[i] == tops[i - 1]);
                    let j = choose|j: int|
                        0 <= j < tail.len() && !smap.contains_key(#[trigger] tail[j].0) && tops[i
                            - 1] == delete_op_of(tail[j].1);
                    assert(entries[j + 1] == tail[j]);
                    assert(!smap.contains_key(entries[j + 1].0) && ops[i] == delete_op_of(
                        entries[j + 1].1,
                    ));
                }
            }
        }
    }
}

/// **Deletion soundness.** Every destination fingerprint absent from the
/// source is gone once the plan has run, and no delete of the plan removes
/// a file whose fingerprint the source snapshot holds.
pub proof fn lemma_deletion_soundness(
    m: Map<Seq<char>, Seq<char>>,
    src_root: Seq<char>,
    dst_root: Seq<char>,
    s: Snapshot,
    d: Snapshot,
)
    requires
        snapshot_faithful(s, m, src_root),
        snapshot_faithful(d, m, dst_root),
        dst_root.len() > 0,
        roots_disjoint(src_root, dst_root),
        dst_fps_unique(m, dst_root),
        copy_targets_fresh(dst_root, s, d, m),
        copy_targets_distinct(s, d),
    ensures
        forall|k: Seq<char>|
            !s@.contains_key(k) ==> !#[trigger] fp_present(
                apply_ops(m, plan_of(dst_root, s, d)),
                dst_root,
                k,
            ),
        forall|i: int|
            0 <= i < plan_of(dst_root, s, d).len() && (#[trigger] plan_of(dst_root, s, d)[i])
                is DeleteFile ==> m.contains_key(plan_of(dst_root, s, d)[i]->DeleteFile_path)
                && !s@.contains_key(
                fp_of(
                    plan_of(dst_root, s, d)[i]->DeleteFile_path,
                    m[plan_of(dst_root, s, d)[i]->DeleteFile_path],
                ),
            ),
{
    lemma_completeness(m, src_root, dst_root, s, d);
    let se = s.entry_seq();
    let de = d.entry_seq();
    let plan = plan_of(dst_root, s, d);
    let copies = copies_of(dst_root, se, d@);
    let dels = deletes_of(de, s@);
    lemma_copies_elems(dst_root, se, d@);
    lemma_deletes_elems(de, s@);
    assert forall|i: int|
        0 <= i < plan.len() && (#[trigger] plan[i]) is DeleteFile implies m.contains_key(
        plan[i]->DeleteFile_path,
    ) && !s@.contains_key(
        fp_of(plan[i]->DeleteFile_path, m[plan[i]->DeleteFile_path]),
    ) by {
        if i < copies.len() {
            let j = choose|j: int|
                0 <= j < se.len() && !d@.contains_key(#[trigger] se[j].0) && copies[i]
                    == copy_op_of(dst_root, se[j].1);
            assert(plan[i] == copies[i]);
            assert(false);
        } else {
            assert(plan[i] == dels[i - copies.len()]);
            let j = choose|j: int|
                0 <= j < de.len() && !s@.contains_key(#[trigger] de[j].0) && dels[i
                    - copies.len()] == delete_op_of(de[j].1);
            d.lemma_entry_consistent(j);
            lemma_snapshot_entry(d, m, dst_root, de[j].0);
            assert(fp_of(de[j].1@.path, m[de[j].1@.path]) == de[j].0);
        }
    }
}

/// **Ordering.** Every copy of the plan comes before every delete, and no
/// delete frees a path that any copy targets: a name a copy lands on is
/// never one a delete has to clear first.
pub proof fn lemma_plan_ordering(
    m: Map<Seq<char>, Seq<char>>,
    src_root: Seq<char>,
    dst_root: Seq<char>,
    s: Snapshot,
    d: Snapshot,
)
    requires
        snapshot_faithful(s, m, src_root),
        snapshot_faithful(d, m, dst_root),
        dst_root.len() > 0,
        copy_targets_fresh(dst_root, s, d, m),
    ensures
        forall|i: int, j: int|
            0 <= i < j < plan_of(dst_root, s, d).len() && (#[trigger] plan_of(dst_root, s, d)[i])
                is DeleteFile ==> (#[trigger] plan_of(dst_root, s, d)[j]) is DeleteFile,
        forall|i: int, j: int|
            0 <= i < plan_of(dst_root, s, d).len() && 0 <= j < plan_of(dst_root, s, d).len() && (
            #[trigger] plan_of(dst_root, s, d)[i]) is CopyFile && (#[trigger] plan_of(
                dst_root,
                s,
                d,
            )[j]) is DeleteFile ==> plan_of(dst_root, s, d)[j]->DeleteFile_path != plan_of(
                dst_root,
                s,
                d,
            )[i]->CopyFile_dst_path,
{
    let se = s.entry_seq();
    let de = d.entry_seq();
    let plan = plan_of(dst_root, s, d);
    let copies = copies_of(dst_root, se, d@);
    let dels = deletes_of(de, s@);
    lemma_copies_elems(dst_root, se, d@);
    lemma_deletes_elems(de, s@);
    assert forall|i: int|
        0 <= i < plan.len() && (#[trigger] plan[i]) is DeleteFile implies i >= copies.len() by {
        if i < copies.len() {
            let j = choose|j: int|
                0 <= j < se.len() && !d@.contains_key(#[trigger] se[j].0) && copies[i]
                    == copy_op_of(dst_root, se[j].1);
            assert(plan[i] == copies[i]);
            assert(false);
        }
    }
    assert forall|i: int|
        0 <= i < plan.len() && i >= copies.len() implies (#[trigger] plan[i]) is DeleteFile by {
        assert(plan[i] == dels[i - copies.len()]);
        let j = choose|j: int|
            0 <= j < de.len() && !s@.contains_key(#[trigger] de[j].0) && dels[i - copies.len()]
                == delete_op_of(de[j].1);
    }
    assert forall|i: int, j: int|
        0 <= i < plan.len() && 0 <= j < plan.len() && (#[trigger] plan[i]) is CopyFile && (
        #[trigger] plan[j]) is DeleteFile implies plan[j]->DeleteFile_path
        != plan[i]->CopyFile_dst_path by {
        assert(i < copies.len());
        assert(j >= copies.len());
        let ji = choose|ji: int|
            0 <= ji < se.len() && !d@.contains_key(#[trigger] se[ji].0) && copies[i]
                == copy_op_of(dst_root, se[ji].1);
        assert(plan[j] == dels[j - copies.len()]);
        let jj = choose|jj: int|
            0 <= jj < de.len() && !s@.contains_key(#[trigger] de[jj].0) && dels[j - copies.len()]
                == delete_op_of(de[jj].1);
        s.lemma_entry_consistent(ji);
        d.lemma_entry_consistent(jj);
        lemma_snapshot_entry(d, m, dst_root, de[jj].0);
        assert(m.contains_key(de[jj].1@.path));
        assert(!m.contains_key(target_of(dst_root, s@[se[ji].0])));
    }
}

/// A copy phase over entries the destination all holds plans nothing.
proof fn lemma_copies_none(
    dst_dir: Seq<char>,
    entries: Seq<(Seq<char>, Blob)>,
    dmap: Map<Seq<char>, Blob>,
)
    requires
        forall|j: int| 0 <= j < entries.len() ==> dmap.contains_key(#[trigger] entries[j].0),
    ensures
        copies_of(dst_dir, entries, dmap).len() == 0,
    decreases entries.len(),
{
    if entries.len() > 0 {
        assert forall|j: int|
            0 <= j < entries.drop_first().len() implies dmap.contains_key(
            #[trigger] entries.drop_first()[j].0,
        ) by {
            assert(entries.drop_first()[j] == entries[j + 1]);
        }
        lemma_copies_none(dst_dir, entries.drop_first(), dmap);
    }
}

/// A delete phase over entries the source all holds plans nothing.
proof fn lemma_deletes_none(entries: Seq<(Seq<char>, Blob)>, smap: Map<Seq<char>, Blob>)
    requires
        forall|j: int| 0 <= j < entries.len() ==> smap.contains_key(#[trigger] entries[j].0),
    ensures
        deletes_of(entries, smap).len() == 0,
    decreases entries.len(),
{
    if entries.len() > 0 {
        assert forall|j: int|
            0 <= j < entries.drop_first().len() implies smap.contains_key(
            #[trigger] entries.drop_first()[j].0,
        ) by {
            assert(entries.drop_first()[j] == entries[j + 1]);
        }
        lemma_deletes_none(entries.drop_first(), smap);
    }
}

/// **Idempotence.** A second run over the tree the first run produced
/// plans nothing: whatever faithful snapshots that second run takes, its
/// operation list is empty, and applying it leaves the tree untouched.
pub proof fn lemma_idempotence(
    m: Map<Seq<char>, Seq<char>>,
    src_root: Seq<char>,
    dst_root: Seq<char>,
    s: Snapshot,
    d: Snapshot,
    s2: Snapshot,
    d2: Snapshot,
)
    requires
        snapshot_faithful(s, m, src_root),
        snapshot_faithful(d, m, dst_root),
        dst_root.len() > 0,
        roots_disjoint(src_root, dst_root),
        dst_fps_unique(m, dst_root),
        copy_targets_fresh(dst_root, s, d, m),
        copy_targets_distinct(s, d),
        snapshot_faithful(s2, apply_ops(m, plan_of(dst_root, s, d)), src_root),
        snapshot_faithful(d2, apply_ops(m, plan_of(dst_root, s, d)), dst_root),
    ensures
        plan_of(dst_root, s2, d2).len() == 0,
        apply_ops(apply_ops(m, plan_of(dst_root, s, d)), plan_of(dst_root, s2, d2)) == apply_ops(
            m,
            plan_of(dst_root, s, d),
        ),
{
    lemma_plan_effect(m, src_root, dst_root, s, d);
    lemma_completeness(m, src_root, dst_root, s, d);
    let se = s.entry_seq();
    let de = d.entry_seq();
    let m2 = apply_ops(m, plan_of(dst_root, s, d));
    let tm = target_map(dst_root, se, d@, m);
    let dp = deleted_paths(de, s@);
    lemma_target_map_domain(dst_root, se, d@, m);
    assert forall|p: Seq<char>| #[trigger] under_root(src_root, p) implies ((m2.contains_key(p)
        == m.contains_key(p)) && (m.contains_key(p) ==> m2[p] == m[p])) by {
        if tm.contains_key(p) {
            let j = choose|j: int|
                0 <= j < se.len() && !d@.contains_key(#[trigger] se[j].0) && target_of(
                    dst_root,
                    se[j].1,
                ) == p;
            s.lemma_entry_consistent(j);
            lemma_snapshot_entry(s, m, src_root, se[j].0);
            lemma_target_fp(dst_root, se[j].1, se[j].1@.path, m[se[j].1@.path]);
            assert(under_root(dst_root, p));
            assert(false);
        }
        if dp.contains(p) {
            let j = choose|j: int|
                0 <= j < de.len() && !s@.contains_key(#[trigger] de[j].0) && de[j].1@.path == p;
            d.lemma_entry_consistent(j);
            lemma_snapshot_entry(d, m, dst_root, de[j].0);
            assert(under_root(dst_root, p));
            assert(false);
        }
    }
    assert forall|k: Seq<char>| #[trigger] s2@.contains_key(k) implies s@.contains_key(k) by {
        lemma_snapshot_entry(s2, m2, src_root, k);
        let p = s2@[k]@.path;
        assert(m.contains_key(p) && m2[p] == m[p]);
        assert(s@.contains_key(fp_of(p, m[p])));
    }
    assert forall|k: Seq<char>| #[trigger] s@.contains_key(k) implies s2@.contains_key(k) by {
        lemma_snapshot_entry(s, m, src_root, k);
        let p = s@[k]@.path;
        assert(m2.contains_key(p) && m2[p] == m[p]);
        assert(s2@.contains_key(fp_of(p, m2[p])));
    }
    assert forall|k: Seq<char>| #[trigger] d2@.contains_key(k) implies s@.contains_key(k) by {
        lemma_snapshot_entry(d2, m2, dst_root, k);
        assert(fp_present(m2, dst_root, k));
        if !s@.contains_key(k) {
            assert(false);
        }
    }
    assert forall|k: Seq<char>| #[trigger] s@.contains_key(k) implies d2@.contains_key(k) by {
        assert(fp_present(m2, dst_root, k));
        let q = choose|q: Seq<char>|
            #[trigger] m2.contains_key(q) && under_root(dst_root, q) && path_wf(q) && fp_of(
                q,
                m2[q],
            ) == k;
        assert(d2@.contains_key(fp_of(q, m2[q])));
    }
    assert forall|j: int| 0 <= j < s2.entry_seq().len() implies d2@.contains_key(
        #[trigger] s2.entry_seq()[j].0,
    ) by {
        s2.lemma_entry_consistent(j);
    }
    lemma_copies_none(dst_root, s2.entry_seq(), d2@);
    assert forall|j: int| 0 <= j < d2.entry_seq().len() implies s2@.contains_key(
        #[trigger] d2.entry_seq()[j].0,
    ) by {
        d2.lemma_entry_consistent(j);
    }
    lemma_deletes_none(d2.entry_seq(), s2@);
    assert(plan_of(dst_root, s2, d2).len() == 0);
}

/// A key occurs somewhere in a key sequence.
pub open spec fn key_in(x: Seq<char>, s: Seq<Seq<char>>) -> bool {
    exists|j: int| 0 <= j < s.len() && s[j] == x
}

/// Two strictly sorted key sequences with the same members are equal.
#[verifier::rlimit(100)]
proof fn lemma_sorted_keys_unique(a: Seq<Seq<char>>, b: Seq<Seq<char>>)
    requires
        forall|i: int, j: int| 0 <= i < j < a.len() ==> lex_lt(#[trigger] a[i], #[trigger] a[j]),
        forall|i: int, j: int| 0 <= i < j < b.len() ==> lex_lt(#[trigger] b[i], #[trigger] b[j]),
        forall|i: int| 0 <= i < a.len() ==> #[trigger] key_in(a[i], b),
        forall|i: int| 0 <= i < b.len() ==> #[trigger] key_in(b[i], a),
    ensures
        a =~= b,
    decreases a.len(),
{
    if a.len() == 0 {
        if b.len() > 0 {
            assert(key_in(b[0], a));
            let j = choose|j: int| 0 <= j < a.len() && a[j] == b[0];
            assert(false);
        }
    } else if b.len() == 0 {
        assert(key_in(a[0], b));
        let j = choose|j: int| 0 <= j < b.len() && b[j] == a[0];
        assert(false);
    } else {
        assert(key_in(a[0], b));
        assert(key_in(b[0], a));
        let j0 = choose|j: int| 0 <= j < b.len() && b[j] == a[0];
        let i0 = choose|j: int| 0 <= j < a.len() && a[j] == b[0];
        lemma_lex_lt_trichotomy(a[0], b[0]);
        if a[0] != b[0] {
            if lex_lt(a[0], b[0]) {
                assert(j0 > 0);
                assert(lex_lt(b[0], b[j0]));
                lemma_lex_lt_trichotomy(b[0], a[0]);
                assert(false);
            } else {
                assert(i0 > 0);
                assert(lex_lt(a[0], a[i0]));
                lemma_lex_lt_trichotomy(a[0], b[0]);
                assert(false);
            }
        }
        let at = a.drop_first();
        let bt = b.drop_first();
        assert forall|i: int, j: int| 0 <= i < j < at.len() implies lex_lt(
            #[trigger] at[i],
            #[trigger] at[j],
        ) by {
            assert(at[i] == a[i + 1] && at[j] == a[j + 1]);
        }
        assert forall|i: int, j: int| 0 <= i < j < bt.len() implies lex_lt(
            #[trigger] bt[i],
            #[trigger] bt[j],
        ) by {
            assert(bt[i] == b[i + 1] && bt[j] == b[j + 1]);
        }
        assert forall|i: int| 0 <= i < at.len() implies #[trigger] key_in(at[i], bt) by {
            assert(at[i] == a[i + 1]);
            assert(key_in(a[i + 1], b));
            let j = choose|j: int| 0 <= j < b.len() && b[j] == a[i + 1];
            if j == 0 {
                assert(lex_lt(a[0], a[i + 1]));
                lemma_lex_lt_trichotomy(a[0], a[i + 1]);
                assert(false);
            }
            assert(bt[j - 1] == at[i]);
        }
        assert forall|i: int| 0 <= i < bt.len() implies #[trigger] key_in(bt[i], at) by {
            assert(bt[i] == b[i + 1]);
            assert(key_in(b[i + 1], a));
            let j = choose|j: int| 0 <= j < a.len() && a[j] == b[i + 1];
            if j == 0 {
                assert(lex_lt(b[0], b[i + 1]));
                lemma_lex_lt_trichotomy(b[0], b[i + 1]);
                assert(false);
            }
            assert(at[j - 1] == bt[i]);
        }
        lemma_sorted_keys_unique(at, bt);
        assert forall|idx: int| 0 <= idx < a.len() implies a[idx] == b[idx] by {
            if idx > 0 {
                assert(at[idx - 1] == bt[idx - 1]);
            }
        }
    }
}

/// Any two canonical snapshots of one tree under one root agree: the same
/// fingerprints in the same order, each bound to the same blob.
#[verifier::rlimit(50)]
pub proof fn lemma_canonical_agree(
    s1: Snapshot,
    s2: Snapshot,
    m: Map<Seq<char>, Seq<char>>,
    root: Seq<char>,
)
    requires
        snapshot_canonical(s1, m, root),
        snapshot_canonical(s2, m, root),
    ensures
        s1.entry_seq().len() == s2.entry_seq().len(),
        forall|i: int|
            0 <= i < s1.entry_seq().len() ==> #[trigger] s1.entry_seq()[i].0
                == s2.entry_seq()[i].0 && s1.entry_seq()[i].1@ == s2.entry_seq()[i].1@,
{
    assert forall|k: Seq<char>| #[trigger] s1@.contains_key(k) implies s2@.contains_key(k) by {
        lemma_snapshot_entry(s1, m, root, k);
        let p = s1@[k]@.path;
        assert(s2@.contains_key(fp_of(p, m[p])));
    }
    assert forall|k: Seq<char>| #[trigger] s2@.contains_key(k) implies s1@.contains_key(k) by {
        lemma_snapshot_entry(s2, m, root, k);
        let p = s2@[k]@.path;
        assert(s1@.contains_key(fp_of(p, m[p])));
    }
    let ka = s1.entry_seq().map_values(|e: (Seq<char>, Blob)| e.0);
    let kb = s2.entry_seq().map_values(|e: (Seq<char>, Blob)| e.0);
    assert forall|i: int| 0 <= i < ka.len() implies #[trigger] key_in(ka[i], kb) by {
        s1.lemma_entry_consistent(i);
        assert(s1@.contains_key(s1.entry_seq()[i].0));
        assert(s2@.contains_key(s1.entry_seq()[i].0));
        s2.lemma_index_of(s1.entry_seq()[i].0);
        let j = s2.index_of(s1.entry_seq()[i].0);
        assert(kb[j] == ka[i]);
    }
    assert forall|i: int| 0 <= i < kb.len() implies #[trigger] key_in(kb[i], ka) by {
        s2.lemma_entry_consistent(i);
        assert(s2@.contains_key(s2.entry_seq()[i].0));
        assert(s1@.contains_key(s2.entry_seq()[i].0));
        s1.lemma_index_of(s2.entry_seq()[i].0);
        let j = s1.index_of(s2.entry_seq()[i].0);
        assert(ka[j] == kb[i]);
    }
    assert forall|i: int, j: int| 0 <= i < j < ka.len() implies lex_lt(
        #[trigger] ka[i],
        #[trigger] ka[j],
    ) by {
        assert(ka[i] == s1.entry_seq()[i].0 && ka[j] == s1.entry_seq()[j].0);
    }
    assert forall|i: int, j: int| 0 <= i < j < kb.len() implies lex_lt(
        #[trigger] kb[i],
        #[trigger] kb[j],
    ) by {
        assert(kb[i] == s2.entry_seq()[i].0 && kb[j] == s2.entry_seq()[j].0);
    }
    lemma_sorted_keys_unique(ka, kb);
    assert forall|k: Seq<char>| #[trigger] s1@.contains_key(k) implies s1@[k]@ == s2@[k]@ by {
        lemma_snapshot_entry(s1, m, root, k);
        lemma_snapshot_entry(s2, m, root, k);
        let p1 = s1@[k]@.path;
        let p2 = s2@[k]@.path;
        assert(snapshot_entry_latest(m, root, k, s1@[k]));
        assert(snapshot_entry_latest(m, root, k, s2@[k]));
        assert(fp_of(p2, m[p2]) == k);
        assert(fp_of(p1, m[p1]) == k);
        assert(p2 == p1 || lex_lt(p2, p1));
        assert(p1 == p2 || lex_lt(p1, p2));
        if p1 != p2 {
            lemma_lex_lt_trichotomy(p1, p2);
            assert(false);
        }
    }
    assert forall|i: int|
        0 <= i < s1.entry_seq().len() implies #[trigger] s1.entry_seq()[i].0
        == s2.entry_seq()[i].0 && s1.entry_seq()[i].1@ == s2.entry_seq()[i].1@ by {
        assert(ka[i] == kb[i]);
        s1.lemma_entry_consistent(i);
        s2.lemma_entry_consistent(i);
        let k = s1.entry_seq()[i].0;
        assert(s1.entry_seq()[i].1 == s1@[k] && s2.entry_seq()[i].1 == s2@[k]);
    }
}

/// The copy planner reads only entry keys, blob views and the other
/// side's key set: equal inputs plan equal copies.
proof fn lemma_copies_congruent(
    dst_dir: Seq<char>,
    ea: Seq<(Seq<char>, Blob)>,
    eb: Seq<(Seq<char>, Blob)>,
    da: Map<Seq<char>, Blob>,
    db: Map<Seq<char>, Blob>,
)
    requires
        ea.len() == eb.len(),
        forall|i: int|
            0 <= i < ea.len() ==> #[trigger] ea[i].0 == eb[i].0 && ea[i].1@ == eb[i].1@,
        forall|k: Seq<char>| #[trigger] da.contains_key(k) <==> db.contains_key(k),
    ensures
        copies_of(dst_dir, ea, da) == copies_of(dst_dir, eb, db),
    decreases ea.len(),
{
    if ea.len() > 0 {
        let ta = ea.drop_first();
        let tb = eb.drop_first();
        assert forall|i: int|
            0 <= i < ta.len() implies #[trigger] ta[i].0 == tb[i].0 && ta[i].1@ == tb[i].1@ by {
            assert(ta[i] == ea[i + 1] && tb[i] == eb[i + 1]);
        }
        lemma_copies_congruent(dst_dir, ta, tb, da, db);
        assert(ea[0].0 == eb[0].0 && ea[0].1@ == eb[0].1@);
        if !da.contains_key(ea[0].0) {
            assert(copy_op_of(dst_dir, ea[0].1) == copy_op_of(dst_dir, eb[0].1));
            assert(copies_of(dst_dir, ea, da) =~= copies_of(dst_dir, eb, db));
        }
    } else {
        assert(copies_of(dst_dir, ea, da) =~= copies_of(dst_dir, eb, db));
    }
}

/// The delete planner likewise.
proof fn lemma_deletes_congruent(
    ea: Seq<(Seq<char>, Blob)>,
    eb: Seq<(Seq<char>, Blob)>,
    sa: Map<Seq<char>, Blob>,
    sb: Map<Seq<char>, Blob>,
)
    requires
        ea.len() == eb.len(),
        forall|i: int|
            0 <= i < ea.len() ==> #[trigger] ea[i].0 == eb[i].0 && ea[i].1@ == eb[i].1@,
        forall|k: Seq<char>| #[trigger] sa.contains_key(k) <==> sb.contains_key(k),
    ensures
        deletes_of(ea, sa) == deletes_of(eb, sb),
    decreases ea.len(),
{
    if ea.len() > 0 {
        let ta = ea.drop_first();
        let tb = eb.drop_first();
        assert forall|i: int|
            0 <= i < ta.len() implies #[trigger] ta[i].0 == tb[i].0 && ta[i].1@ == tb[i].1@ by {
            assert(ta[i] == ea[i + 1] && tb[i] == eb[i + 1]);
        }
        lemma_deletes_congruent(ta, tb, sa, sb);
        assert(ea[0].0 == eb[0].0 && ea[0].1@ == eb[0].1@);
        if !sa.contains_key(ea[0].0) {
            assert(delete_op_of(ea[0].1) == delete_op_of(eb[0].1));
            assert(deletes_of(ea, sa) =~= deletes_of(eb, sb));
        }
    } else {
        assert(deletes_of(ea, sa) =~= deletes_of(eb, sb));
    }
}

/// **Determinism.** Two runs over the same tree plan the identical
/// operation sequence: whichever canonical snapshots of the two
/// directories a run takes, the plan is one and the same.
pub proof fn lemma_plan_deterministic(
    m: Map<Seq<char>, Seq<char>>,
    src_root: Seq<char>,
    dst_root: Seq<char>,
    s1: Snapshot,
    d1: Snapshot,
    s2: Snapshot,
    d2: Snapshot,
)
    requires
        snapshot_canonical(s1, m, src_root),
        snapshot_canonical(d1, m, dst_root),
        snapshot_canonical(s2, m, src_root),
        snapshot_canonical(d2, m, dst_root),
    ensures
        plan_of(dst_root, s1, d1) == plan_of(dst_root, s2, d2),
{
    lemma_canonical_agree(s1, s2, m, src_root);
    lemma_canonical_agree(d1, d2, m, dst_root);
    assert forall|k: Seq<char>| #[trigger] d1@.contains_key(k) <==> d2@.contains_key(k) by {
        if d1@.contains_key(k) {
            d1.lemma_index_of(k);
            let i = d1.index_of(k);
            assert(d2.entry_seq()[i].0 == k);
            d2.lemma_entry_consistent(i);
        }
        if d2@.contains_key(k) {
            d2.lemma_index_of(k);
            let i = d2.index_of(k);
            assert(d1.entry_seq()[i].0 == k);
            d1.lemma_entry_consistent(i);
        }
    }
    assert forall|k: Seq<char>| #[trigger] s1@.contains_key(k) <==> s2@.contains_key(k) by {
        if s1@.contains_key(k) {
            s1.lemma_index_of(k);
            let i = s1.index_of(k);
            assert(s2.entry_seq()[i].0 == k);
            s2.lemma_entry_consistent(i);
        }
        if s2@.contains_key(k) {
            s2.lemma_index_of(k);
            let i = s2.index_of(k);
            assert(s1.entry_seq()[i].0 == k);
            s1.lemma_entry_consistent(i);
        }
    }
    lemma_copies_congruent(dst_root, s1.entry_seq(), s2.entry_seq(), d1@, d2@);
    lemma_deletes_congruent(d1.entry_seq(), d2.entry_seq(), s1@, s2@);
}

} // verus!
