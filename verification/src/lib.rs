//! Content-addressed reconciliation of two directory trees.
//!
//! A file's identity is its fingerprint: basename, SHA-256 content digest and
//! byte size, joined into one key. The library builds a snapshot (a map from
//! fingerprint to blob) for a source and a destination directory, diffs the
//! two snapshots into a deterministic, ordered list of copy and delete
//! operations, and applies that list through a storage capability trait.

mod blob;
mod digest;
mod fake;
mod fsys;
mod laws;
mod numstr;
mod ordmap;
mod pathmodel;
mod plan;
mod runplan;
mod snapshot;
mod strorder;

pub use blob::{blob_of, fingerprint_of, fp_of, Blob, BlobView};
pub use digest::{bytes_to_hex, hex_of, sha256_hex_of, sha256_of};
pub use fake::FakeFileSystem;
pub use fsys::{copy_line_of, delete_line_of, list_line_of, move_line_of, FileSystem, FsError};
pub use laws::{copy_targets_distinct, copy_targets_fresh, deleted_paths, dst_fps_unique, fp_present, lemma_completeness, lemma_deletion_soundness, lemma_canonical_agree, lemma_idempotence, lemma_plan_deterministic, lemma_plan_effect, lemma_plan_ordering, roots_disjoint, target_map, target_of};
pub use numstr::{dec_str_of, u64_to_dec};
pub use ordmap::OrdMap;
pub use pathmodel::{basename_of, dir_of, join_of, join_path, path_under, path_wf, split_path, under_root};
pub use plan::{copies_of, copy_op_of, delete_op_of, deletes_of, op_line_of, op_lines_of, op_views, plan_file_movements, plan_of, FileOp, FileOpView};
pub use runplan::{apply_op, apply_ops, execute_file_movement_plan, execute_rsync, execute_rsync_with_progress, op_applicable, ops_applicable, roots_hold_nothing, rsync_err_post, rsync_ok_post, Args, ProgressSink, SilentProgress};
pub use snapshot::{get_struct_map, paths_to_blobs, snapshot_canonical, snapshot_entry_latest, snapshot_entry_ok, snapshot_faithful, struct_to_hashmap, Snapshot};
pub use strorder::lex_lt;
