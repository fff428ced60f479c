//! Task planning, cleanup execution over the snapshot, and result
//! aggregation.
//!
//! The engine takes a snapshot tree, plans one cleanup task per (directory,
//! matching ecosystem) pair, measures each task's directory before any
//! cleanup begins, then executes the tasks in order: a delete-known-paths
//! task removes the ecosystem's cache subdirectories from the tree, an
//! external-clean task leaves the snapshot unchanged (what the external
//! command does to the real tree is not the snapshot's to predict).  A task
//! may be denied (simulating a permission failure); denied tasks fail alone
//! and free nothing, and every other task still runs.

use vstd::prelude::*;
use vstd::string::StringExecFns;
use crate::cmd::{Cmd, CommandType, is_clean_target, is_clean_target_x};
use crate::constant::marker_views;
use crate::fs_model::{
    dir_at, dir_size, find_child_idx, find_idx, lemma_find_idx, lemma_sat_compose, lookup,
    meas_dir, paths_view, sat64, sat_add, scan, scan_result, views_of, DirTree, ScanLimits,
};
use crate::utils::eq_str;

verus! {

/// One planned unit of work: clean the directory at `path` (relative to the
/// scanned root) with ecosystem `command_type`'s strategy.
pub struct Task {
    pub path: Vec<String>,
    pub command_type: CommandType,
}

/// How one task ended.
pub enum TaskStatus {
    Succeeded,
    Failed(String),
}

/// The record of one executed task.
pub struct TaskOutcome {
    pub path: Vec<String>,
    pub command_type: CommandType,
    pub status: TaskStatus,
    pub size_before: u64,
    pub size_after: u64,
    pub bytes_freed: u64,
}

/// The directory holds a file of this name directly.
pub open spec fn dir_has_file(d: DirTree, n: Seq<char>) -> bool {
    exists|k: int| 0 <= k < d.files@.len() && (#[trigger] d.files@[k].name@) == n
}

/// The directory holds at least one of the marker files directly.
pub open spec fn dir_matches(d: DirTree, markers: Seq<Seq<char>>) -> bool {
    exists|i: int| 0 <= i < markers.len() && dir_has_file(d, #[trigger] markers[i])
}

/// The directory at `p` exists and holds one of `cmd`'s markers.
pub open spec fn cmd_matches_at(t: DirTree, p: Seq<Seq<char>>, cmd: Cmd) -> bool {
    match dir_at(t, p) {
        Some(d) => dir_matches(d, marker_views(cmd.related_files@)),
        None => false,
    }
}

/// The tasks one directory yields against the first `j` ecosystems, in
/// registry order.
pub open spec fn dir_tasks(t: DirTree, p: Seq<Seq<char>>, cmds: Seq<Cmd>, j: int) -> Seq<
    (Seq<Seq<char>>, CommandType),
>
    decreases j,
{
    if j <= 0 || cmds.len() < j {
        Seq::empty()
    } else {
        let prev = dir_tasks(t, p, cmds, j - 1);
        if cmd_matches_at(t, p, cmds[j - 1]) {
            prev + seq![(p, cmds[j - 1].command_type)]
        } else {
            prev
        }
    }
}

/// The tasks planned for the first `i` candidate directories.  A directory
/// that matches several ecosystems yields one task per ecosystem.
pub open spec fn plan_paths(t: DirTree, paths: Seq<Seq<Seq<char>>>, i: int, cmds: Seq<Cmd>) -> Seq<
    (Seq<Seq<char>>, CommandType),
>
    decreases i,
{
    if i <= 0 || paths.len() < i {
        Seq::empty()
    } else {
        plan_paths(t, paths, i - 1, cmds) + dir_tasks(t, paths[i - 1], cmds, cmds.len() as int)
    }
}

/// What a task list says: each task's path (as character sequences) and its
/// ecosystem.
pub open spec fn tasks_view(ts: Seq<Task>) -> Seq<(Seq<Seq<char>>, CommandType)> {
    ts.map_values(|t: Task| (views_of(t.path@), t.command_type))
}

/// A directory that cannot be resolved yields no task.
proof fn lemma_dir_tasks_unresolved(t: DirTree, p: Seq<Seq<char>>, cmds: Seq<Cmd>, j: int)
    requires
        dir_at(t, p) is None,
    ensures
        dir_tasks(t, p, cmds, j) == Seq::<(Seq<Seq<char>>, CommandType)>::empty(),
    decreases j,
{
    if j > 0 && cmds.len() >= j {
        lemma_dir_tasks_unresolved(t, p, cmds, j - 1);
        assert(dir_tasks(t, p, cmds, j) =~= Seq::<(Seq<Seq<char>>, CommandType)>::empty());
    }
}

/// Whether the directory holds a file of this name directly.
fn dir_has_file_x(d: &DirTree, name: &str) -> (r: bool)
    ensures
        r == dir_has_file(*d, name@),
{
    let n = d.files.len();
    let mut k: usize = 0;
    while k < n
        invariant
            k <= n,
            n == d.files@.len(),
            forall|x: int| 0 <= x < k ==> (#[trigger] d.files@[x].name@) != name@,
        decreases n - k,
    {
        if eq_str(&d.files[k].name, name) {
            return true;
        }
        k = k + 1;
    }
    false
}

/// Whether the directory holds one of the ecosystem's markers directly.
fn dir_matches_x(d: &DirTree, cmd: &Cmd) -> (r: bool)
    ensures
        r == dir_matches(*d, marker_views(cmd.related_files@)),
{
    let n = cmd.related_files.len();
    let mut i: usize = 0;
    while i < n
        invariant
            i <= n,
            n == cmd.related_files@.len(),
            forall|x: int| 0 <= x < i ==> !dir_has_file(*d, marker_views(cmd.related_files@)[x]),
        decreases n - i,
    {
        if dir_has_file_x(d, cmd.related_files[i]) {
            proof {
                assert(marker_views(cmd.related_files@)[i as int] == cmd.related_files@[i as int]@);
            }
            return true;
        }
        i = i + 1;
    }
    proof {
        assert forall|x: int|
            0 <= x < marker_views(cmd.related_files@).len() implies !dir_has_file(
            *d,
            marker_views(cmd.related_files@)[x],
        ) by {
            assert(marker_views(cmd.related_files@)[x] == cmd.related_files@[x]@);
        }
    }
    false
}

/// A copy of a path, segment by segment.
fn clone_path(p: &Vec<String>) -> (r: Vec<String>)
    ensures
        r@ == p@,
{
    let n = p.len();
    let mut r: Vec<String> = Vec::new();
    let mut t: usize = 0;
    while t < n
        invariant
            t <= n,
            n == p@.len(),
            r@ == p@.subrange(0, t as int),
        decreases n - t,
    {
        r.push(p[t].clone());
        proof {
            assert(r@ =~= p@.subrange(0, t + 1));
        }
        t = t + 1;
    }
    proof {
        assert(p@.subrange(0, n as int) =~= p@);
    }
    r
}

/// Plans the cleanup tasks for the scanned candidate directories: for each
/// directory in scan order, one task per ecosystem whose marker files the
/// directory holds, in registry order.
pub fn plan_tasks(tree: &DirTree, dirs: &Vec<Vec<String>>, cmds: &Vec<Cmd>) -> (r: Vec<Task>)
    ensures
        tasks_view(r@) == plan_paths(*tree, paths_view(dirs@), dirs@.len() as int, cmds@),
{
    let ghost pv = paths_view(dirs@);
    let mut out: Vec<Task> = Vec::new();
    let n = dirs.len();
    let mut i: usize = 0;
    proof {
        assert(tasks_view(out@) =~= plan_paths(*tree, pv, 0, cmds@));
    }
    while i < n
        invariant
            i <= n,
            n == dirs@.len(),
            pv == paths_view(dirs@),
            tasks_view(out@) == plan_paths(*tree, pv, i as int, cmds@),
        decreases n - i,
    {
        proof {
            assert(pv[i as int] == views_of(dirs@[i as int]@));
        }
        match lookup(tree, &dirs[i]) {
            None => {
                proof {
                    lemma_dir_tasks_unresolved(*tree, pv[i as int], cmds@, cmds@.len() as int);
                    assert(tasks_view(out@) =~= plan_paths(*tree, pv, i + 1, cmds@));
                }
            },
            Some(d) => {
                let m = cmds.len();
                let mut j: usize = 0;
                let ghost base = tasks_view(out@);
                while j < m
                    invariant
                        j <= m,
                        m == cmds@.len(),
                        i < n,
                        n == dirs@.len(),
                        pv == paths_view(dirs@),
                        pv[i as int] == views_of(dirs@[i as int]@),
                        dir_at(*tree, pv[i as int]) == Some(*d),
                        tasks_view(out@) == base + dir_tasks(*tree, pv[i as int], cmds@, j as int),
                    decreases m - j,
                {
                    if dir_matches_x(d, &cmds[j]) {
                        let path = clone_path(&dirs[i]);
                        let task = Task { path, command_type: cmds[j].command_type };
                        let ghost prev = out@;
                        out.push(task);
                        proof {
                            assert(tasks_view(out@).len() == out@.len());
                            assert(tasks_view(prev).len() == prev.len());
                            assert(out@.len() == prev.len() + 1);
                            assert(tasks_view(out@)[out@.len() - 1] == (
                                views_of(out@[out@.len() - 1].path@),
                                out@[out@.len() - 1].command_type,
                            ));
                            assert(views_of(out@[out@.len() - 1].path@) == pv[i as int]);
                            assert forall|x: int| 0 <= x < prev.len() implies tasks_view(out@)[x]
                                == tasks_view(prev)[x] by {
                                assert(out@[x] == prev[x]);
                                assert(tasks_view(out@)[x] == (
                                    views_of(out@[x].path@),
                                    out@[x].command_type,
                                ));
                                assert(tasks_view(prev)[x] == (
                                    views_of(prev[x].path@),
                                    prev[x].command_type,
                                ));
                            }
                            assert(cmd_matches_at(*tree, pv[i as int], cmds@[j as int]));
                            assert(dir_tasks(*tree, pv[i as int], cmds@, j as int + 1)
                                =~= dir_tasks(*tree, pv[i as int], cmds@, j as int) + seq![
                                (pv[i as int], cmds@[j as int].command_type),
                            ]);
                            let lhs = tasks_view(out@);
                            let elt = (pv[i as int], cmds@[j as int].command_type);
                            let rhs = base + dir_tasks(*tree, pv[i as int], cmds@, j as int + 1);
                            assert(rhs =~= base + dir_tasks(
                                *tree,
                                pv[i as int],
                                cmds@,
                                j as int,
                            ) + seq![elt]);
                            assert(lhs.len() == rhs.len());
                            assert forall|x: int| 0 <= x < lhs.len() implies lhs[x] == rhs[x] by {
                                if x < prev.len() {
                                    assert(lhs[x] == tasks_view(prev)[x]);
                                    assert(tasks_view(prev)[x] == (base + dir_tasks(
                                        *tree,
                                        pv[i as int],
                                        cmds@,
                                        j as int,
                                    ))[x]);
                                } else {
                                    assert(lhs[x] == elt);
                                    assert(rhs[x] == elt);
                                }
                            }
                            assert(lhs =~= rhs);
                        }
                    } else {
                        proof {
                            assert(tasks_view(out@) =~= base + dir_tasks(
                                *tree,
                                pv[i as int],
                                cmds@,
                                j + 1,
                            ));
                        }
                    }
                    j = j + 1;
                }
                proof {
                    assert(tasks_view(out@) =~= plan_paths(*tree, pv, i + 1, cmds@));
                }
            },
        }
        i = i + 1;
    }
    out
}

/// The subdirectories, among the first `j`, that cleaning under ecosystem
/// `c` keeps: everything except `c`'s cache directories, in order.
pub open spec fn remove_targets(subs: Seq<DirTree>, j: int, c: CommandType) -> Seq<DirTree>
    decreases j,
{
    if j <= 0 || subs.len() < j {
        Seq::empty()
    } else {
        let p = remove_targets(subs, j - 1, c);
        if is_clean_target(c, subs[j - 1].name@) {
            p
        } else {
            p + seq![subs[j - 1]]
        }
    }
}

/// How a cleaned tree relates to the tree it was cleaned from: along `path`
/// everything is kept except that the directory at the path's end loses the
/// ecosystem's cache subdirectories.  A path that does not resolve leaves
/// the tree unchanged.
pub open spec fn clean_rel(t: DirTree, path: Seq<Seq<char>>, c: CommandType, r: DirTree) -> bool
    decreases path.len(),
{
    &&& r.name == t.name
    &&& r.files == t.files
    &&& if path.len() == 0 {
        r.subdirs@ == remove_targets(t.subdirs@, t.subdirs@.len() as int, c)
    } else {
        let ix = find_idx(t.subdirs@, 0, path[0]);
        if ix < 0 {
            r.subdirs@ == t.subdirs@
        } else {
            &&& r.subdirs@.len() == t.subdirs@.len()
            &&& (forall|y: int|
                0 <= y < t.subdirs@.len() && y != ix ==> r.subdirs@[y] == t.subdirs@[y])
            &&& clean_rel(t.subdirs@[ix], path.drop_first(), c, r.subdirs@[ix])
        }
    }
}

/// A cleaned child, put back in its place, cleans the whole tree along the
/// path.
proof fn lemma_clean_rel_step(t: DirTree, path: Seq<Seq<char>>, c: CommandType, x: DirTree, r: DirTree)
    requires
        path.len() > 0,
        find_idx(t.subdirs@, 0, path[0]) >= 0,
        clean_rel(t.subdirs@[find_idx(t.subdirs@, 0, path[0])], path.drop_first(), c, x),
        r.subdirs@ == t.subdirs@.update(find_idx(t.subdirs@, 0, path[0]), x),
        r.name == t.name,
        r.files == t.files,
    ensures
        clean_rel(t, path, c, r),
{
    let ix = find_idx(t.subdirs@, 0, path[0]);
    lemma_find_idx(t.subdirs@, 0, path[0]);
    assert(r.subdirs@[ix] == x);
}

/// Deletes ecosystem `c`'s cache subdirectories directly under `d` (for an
/// external-clean ecosystem nothing is a cache subdirectory and the
/// directory keeps everything).
pub fn clean_dir(d: DirTree, c: CommandType) -> (r: DirTree)
    ensures
        r.name == d.name,
        r.files == d.files,
        r.subdirs@ == remove_targets(d.subdirs@, d.subdirs@.len() as int, c),
{
    let DirTree { name, files, subdirs } = d;
    let mut rest = subdirs;
    let ghost orig = rest@;
    let rlen = rest.len();
    let mut kept: Vec<DirTree> = Vec::new();
    let mut i: usize = 0;
    proof {
        assert(orig.len() == rlen);
        assert(rest@ =~= orig.skip(0));
    }
    while rest.len() > 0
        invariant
            i <= orig.len(),
            orig.len() <= usize::MAX,
            rest@ == orig.skip(i as int),
            kept@ == remove_targets(orig, i as int, c),
        decreases rest@.len(),
    {
        let s = rest.remove(0);
        proof {
            assert(orig.skip(i as int)[0] == orig[i as int]);
            assert(orig.skip(i as int).remove(0) =~= orig.skip(i as int + 1));
        }
        if is_clean_target_x(c, &s.name) {
            proof {
                assert(kept@ =~= remove_targets(orig, i as int + 1, c));
            }
        } else {
            kept.push(s);
            proof {
                assert(kept@ =~= remove_targets(orig, i as int + 1, c));
            }
        }
        i = i + 1;
    }
    proof {
        assert(i == orig.len());
    }
    DirTree { name, files, subdirs: kept }
}

/// Cleans the directory that the path segments from `k` on name, leaving
/// the rest of the tree as it was.
pub fn clean_at(t: DirTree, path: &Vec<String>, k: usize, c: CommandType) -> (r: DirTree)
    requires
        k <= path@.len(),
    ensures
        clean_rel(t, views_of(path@).skip(k as int), c, r),
    decreases path@.len() - k,
{
    let ghost rest = views_of(path@).skip(k as int);
    if k == path.len() {
        proof {
            assert(rest =~= Seq::<Seq<char>>::empty());
        }
        clean_dir(t, c)
    } else {
        proof {
            assert(rest.len() > 0);
            assert(rest[0] == path@[k as int]@);
            assert(rest.drop_first() =~= views_of(path@).skip(k as int + 1));
        }
        match find_child_idx(&t, &path[k]) {
            None => t,
            Some(i) => {
                proof {
                    lemma_find_idx(t.subdirs@, 0, path@[k as int]@);
                }
                let DirTree { name, files, subdirs } = t;
                let mut subdirs = subdirs;
                let ghost orig = subdirs@;
                let sub = subdirs.remove(i);
                let cleaned = clean_at(sub, path, k + 1, c);
                subdirs.insert(i, cleaned);
                proof {
                    assert(subdirs@ =~= orig.update(i as int, subdirs@[i as int]));
                }
                let r = DirTree { name, files, subdirs };
                proof {
                    let ix = find_idx(t.subdirs@, 0, rest[0]);
                    assert(ix == i as int);
                    assert(r.name == t.name);
                    assert(r.files == t.files);
                    assert(clean_rel(t.subdirs@[ix], rest.drop_first(), c, r.subdirs@[ix]));
                    assert(r.subdirs@ == t.subdirs@.update(ix, r.subdirs@[ix]));
                    lemma_clean_rel_step(t, rest, c, r.subdirs@[ix], r);
                }
                r
            },
        }
    }
}

/// The bytes a task freed: the drop from before to after, and never less
/// than zero.
pub open spec fn freed_of(before: u64, after: u64) -> u64 {
    if before >= after {
        (before - after) as u64
    } else {
        0
    }
}

/// Computes the bytes a task freed, clamping an inconsistent measurement
/// (after larger than before) to zero rather than reporting a negative
/// number.
pub fn bytes_freed(size_before: u64, size_after: u64) -> (r: u64)
    ensures
        r == freed_of(size_before, size_after),
{
    if size_before >= size_after {
        size_before - size_after
    } else {
        0
    }
}

/// The measured size of the directory at `path` in `t`: the clamped,
/// ceiling-bounded byte total, or zero when the path no longer resolves.
pub open spec fn size_at(t: DirTree, path: Seq<Seq<char>>, max_depth: nat, max_files: nat) -> u64 {
    match dir_at(t, path) {
        Some(d) => sat64(meas_dir(d, max_depth, max_files).0),
        None => 0,
    }
}

/// Measures the directory a task points at; a directory that no longer
/// exists measures zero.
fn size_of_dir_at(tree: &DirTree, path: &Vec<String>, limits: &ScanLimits) -> (r: u64)
    ensures
        r == size_at(*tree, views_of(path@), limits.max_depth as nat, limits.max_files as nat),
{
    match lookup(tree, path) {
        Some(d) => dir_size(d, limits).bytes,
        None => 0,
    }
}

/// Whether the failure injection denies task `i`.
pub open spec fn denied_at(denied: Seq<bool>, i: int) -> bool {
    0 <= i < denied.len() && denied[i]
}

/// How many of the first `j` outcomes succeeded.
pub open spec fn count_succ(outs: Seq<TaskOutcome>, j: int) -> int
    decreases j,
{
    if j <= 0 || outs.len() < j {
        0
    } else {
        count_succ(outs, j - 1) + if outs[j - 1].status is Succeeded {
            1int
        } else {
            0int
        }
    }
}

/// The bytes the first `j` outcomes freed, before clamping.
pub open spec fn sum_freed(outs: Seq<TaskOutcome>, j: int) -> int
    decreases j,
{
    if j <= 0 || outs.len() < j {
        0
    } else {
        sum_freed(outs, j - 1) + outs[j - 1].bytes_freed
    }
}

proof fn lemma_sum_freed_nonneg(outs: Seq<TaskOutcome>, j: int)
    ensures
        sum_freed(outs, j) >= 0,
    decreases j,
{
    if j > 0 && outs.len() >= j {
        lemma_sum_freed_nonneg(outs, j - 1);
    }
}

/// What one executed task must look like: the outcome records the task's
/// directory and ecosystem; the before-size comes from the starting tree,
/// the after-size from the tree the task's action leaves behind; a denied
/// task fails, changes nothing and frees nothing; an allowed task succeeds
/// and its action cleans the tree at its directory.
pub open spec fn run_step_ok(
    t0: DirTree,
    task: (Seq<Seq<char>>, CommandType),
    denied: bool,
    o: TaskOutcome,
    before: DirTree,
    after: DirTree,
    max_depth: nat,
    max_files: nat,
) -> bool {
    &&& views_of(o.path@) == task.0
    &&& o.command_type == task.1
    &&& o.size_before == size_at(t0, task.0, max_depth, max_files)
    &&& if denied {
        &&& after == before
        &&& o.size_after == o.size_before
        &&& o.status is Failed
    } else {
        &&& clean_rel(before, task.0, task.1, after)
        &&& o.size_after == size_at(after, task.0, max_depth, max_files)
        &&& o.status is Succeeded
    }
    &&& o.bytes_freed == freed_of(o.size_before, o.size_after)
}

/// How a whole run relates its inputs to its outcomes: the tasks are the
/// plan over the scan of the starting tree; `steps` is the succession of
/// trees, from the first to the last, with each task's action (or
/// denial) between neighbours; and each outcome satisfies `run_step_ok`.
pub open spec fn run_rel(
    t0: DirTree,
    cmds: Seq<Cmd>,
    excl: Seq<Seq<char>>,
    max_depth: nat,
    max_files: nat,
    denied: Seq<bool>,
    outs: Seq<TaskOutcome>,
    tfinal: DirTree,
    steps: Seq<DirTree>,
) -> bool {
    let paths = scan_result(t0, excl, max_depth).0;
    let tasks = plan_paths(t0, paths, paths.len() as int, cmds);
    &&& outs.len() == tasks.len()
    &&& steps.len() == tasks.len() + 1
    &&& steps[0] == t0
    &&& tfinal == steps[tasks.len() as int]
    &&& forall|i: int|
        0 <= i < tasks.len() ==> run_step_ok(
            t0,
            tasks[i],
            denied_at(denied, i),
            #[trigger] outs[i],
            steps[i],
            steps[i + 1],
            max_depth,
            max_files,
        )
}

/// What one run reports: the outcome of every task in plan order, how many
/// tasks succeeded, the total bytes freed (clamped), and the tree as the
/// run left it.
pub struct RunReport {
    pub outcomes: Vec<TaskOutcome>,
    pub cleaned_count: usize,
    pub total_freed: u64,
    pub tree: DirTree,
}

/// Runs the whole orchestration on a snapshot: scans the tree under the
/// exclusion rules and the depth ceiling, plans the tasks, measures every
/// task's directory before any cleanup, then executes the tasks in order.
/// `denied` injects per-task failure (a denied task fails alone, changes
/// nothing and frees nothing; tasks beyond its length are allowed).  The
/// report aggregates the outcomes; bytes freed are never negative.
pub fn do_clean_all(
    tree: DirTree,
    cmds: &Vec<Cmd>,
    exclude_dirs: &Vec<String>,
    limits: &ScanLimits,
    denied: &Vec<bool>,
) -> (r: RunReport)
    ensures
        exists|steps: Seq<DirTree>|
            #[trigger] run_rel(
                tree,
                cmds@,
                views_of(exclude_dirs@),
                limits.max_depth as nat,
                limits.max_files as nat,
                denied@,
                r.outcomes@,
                r.tree,
                steps,
            ),
        forall|i: int|
            0 <= i < r.outcomes@.len() ==> (#[trigger] r.outcomes@[i]).bytes_freed == freed_of(
                r.outcomes@[i].size_before,
                r.outcomes@[i].size_after,
            ),
        forall|i: int|
            0 <= i < r.outcomes@.len() ==> ((#[trigger] r.outcomes@[i]).status is Succeeded
                <==> !denied_at(denied@, i)),
        r.cleaned_count == count_succ(r.outcomes@, r.outcomes@.len() as int),
        r.total_freed == sat64(sum_freed(r.outcomes@, r.outcomes@.len() as int)),
{
    let ghost t0 = tree;
    let ghost excl_v = views_of(exclude_dirs@);
    let ghost dd = limits.max_depth as nat;
    let ghost ff = limits.max_files as nat;
    let scan_r = scan(&tree, exclude_dirs, limits.max_depth);
    let tasks = plan_tasks(&tree, &scan_r.dirs, cmds);
    let ghost tasks_v = tasks_view(tasks@);
    proof {
        assert(paths_view(scan_r.dirs@).len() == scan_r.dirs@.len());
        assert(tasks_v == plan_paths(
            t0,
            scan_result(t0, excl_v, dd).0,
            scan_result(t0, excl_v, dd).0.len() as int,
            cmds@,
        ));
        assert(tasks_v.len() == tasks@.len());
    }
    let n = tasks.len();
    let mut sizes: Vec<u64> = Vec::new();
    let mut i: usize = 0;
    while i < n
        invariant
            i <= n,
            n == tasks@.len(),
            tasks_v == tasks_view(tasks@),
            sizes@.len() == i,
            forall|x: int| 0 <= x < i ==> (#[trigger] sizes@[x]) == size_at(t0, tasks_v[x].0, dd, ff),
            t0 == tree,
            dd == limits.max_depth as nat,
            ff == limits.max_files as nat,
        decreases n - i,
    {
        let s = size_of_dir_at(&tree, &tasks[i].path, limits);
        proof {
            assert(tasks_v[i as int] == (views_of(tasks@[i as int].path@), tasks@[i as int].command_type));
        }
        sizes.push(s);
        i = i + 1;
    }
    let mut cur = tree;
    let ghost mut steps: Seq<DirTree> = seq![t0];
    let mut outcomes: Vec<TaskOutcome> = Vec::new();
    let mut cleaned: usize = 0;
    let mut freed_total: u64 = 0;
    let mut i: usize = 0;
    while i < n
        invariant
            i <= n,
            n == tasks@.len(),
            tasks_v == tasks_view(tasks@),
            tasks_v.len() == n,
            sizes@.len() == n,
            forall|x: int| 0 <= x < n ==> (#[trigger] sizes@[x]) == size_at(t0, tasks_v[x].0, dd, ff),
            dd == limits.max_depth as nat,
            ff == limits.max_files as nat,
            steps.len() == i + 1,
            steps[0] == t0,
            cur == steps[i as int],
            outcomes@.len() == i,
            forall|x: int|
                0 <= x < i ==> run_step_ok(
                    t0,
                    tasks_v[x],
                    denied_at(denied@, x),
                    #[trigger] outcomes@[x],
                    steps[x],
                    steps[x + 1],
                    dd,
                    ff,
                ),
            cleaned <= i,
            cleaned == count_succ(outcomes@, i as int),
            freed_total == sat64(sum_freed(outcomes@, i as int)),
        decreases n - i,
    {
        let denied_i = if i < denied.len() {
            denied[i]
        } else {
            false
        };
        let path = clone_path(&tasks[i].path);
        let ct = tasks[i].command_type;
        let sb = sizes[i];
        proof {
            assert(tasks_v[i as int] == (views_of(tasks@[i as int].path@), tasks@[i as int].command_type));
            lemma_sum_freed_nonneg(outcomes@, i as int);
        }
        let ghost prev_outs = outcomes@;
        if denied_i {
            let o = TaskOutcome {
                path,
                command_type: ct,
                status: TaskStatus::Failed(String::from_str("permission denied")),
                size_before: sb,
                size_after: sb,
                bytes_freed: 0,
            };
            outcomes.push(o);
            proof {
                steps = steps.push(cur);
                assert(outcomes@.drop_last() =~= prev_outs);
                assert(count_succ(outcomes@, i as int) == count_succ(prev_outs, i as int))
                    by {
                    lemma_counts_prefix(prev_outs, outcomes@, i as int);
                }
                assert(sum_freed(outcomes@, i as int) == sum_freed(prev_outs, i as int)) by {
                    lemma_sums_prefix(prev_outs, outcomes@, i as int);
                }
                assert(run_step_ok(
                    t0,
                    tasks_v[i as int],
                    denied_at(denied@, i as int),
                    outcomes@[i as int],
                    steps[i as int],
                    steps[i as int + 1],
                    dd,
                    ff,
                ));
            }
        } else {
            proof {
                assert(views_of(tasks@[i as int].path@).skip(0) =~= views_of(
                    tasks@[i as int].path@,
                ));
            }
            cur = clean_at(cur, &tasks[i].path, 0, ct);
            let sa = size_of_dir_at(&cur, &tasks[i].path, limits);
            let fr = bytes_freed(sb, sa);
            let o = TaskOutcome {
                path,
                command_type: ct,
                status: TaskStatus::Succeeded,
                size_before: sb,
                size_after: sa,
                bytes_freed: fr,
            };
            outcomes.push(o);
            cleaned = cleaned + 1;
            proof {
                lemma_sat_compose(sum_freed(prev_outs, i as int), fr as int);
            }
            freed_total = sat_add(freed_total, fr);
            proof {
                steps = steps.push(cur);
                assert(outcomes@.drop_last() =~= prev_outs);
                assert(count_succ(outcomes@, i as int) == count_succ(prev_outs, i as int))
                    by {
                    lemma_counts_prefix(prev_outs, outcomes@, i as int);
                }
                assert(sum_freed(outcomes@, i as int) == sum_freed(prev_outs, i as int)) by {
                    lemma_sums_prefix(prev_outs, outcomes@, i as int);
                }
                assert(run_step_ok(
                    t0,
                    tasks_v[i as int],
                    denied_at(denied@, i as int),
                    outcomes@[i as int],
                    steps[i as int],
                    steps[i as int + 1],
                    dd,
                    ff,
                ));
            }
        }
        i = i + 1;
    }
    let r = RunReport { outcomes, cleaned_count: cleaned, total_freed: freed_total, tree: cur };
    proof {
        assert(run_rel(
            t0,
            cmds@,
            excl_v,
            dd,
            ff,
            denied@,
            r.outcomes@,
            r.tree,
            steps,
        ));
        assert forall|x: int| 0 <= x < r.outcomes@.len() implies (#[trigger] r.outcomes@[x]).bytes_freed
            == freed_of(r.outcomes@[x].size_before, r.outcomes@[x].size_after) by {
            assert(run_step_ok(
                t0,
                tasks_v[x],
                denied_at(denied@, x),
                r.outcomes@[x],
                steps[x],
                steps[x + 1],
                dd,
                ff,
            ));
        }
        assert forall|x: int| 0 <= x < r.outcomes@.len() implies ((#[trigger] r.outcomes@[x]).status
            is Succeeded <==> !denied_at(denied@, x)) by {
            assert(run_step_ok(
                t0,
                tasks_v[x],
                denied_at(denied@, x),
                r.outcomes@[x],
                steps[x],
                steps[x + 1],
                dd,
                ff,
            ));
        }
    }
    r
}

/// Counting and summing look only at the first `j` outcomes, so a longer
/// list with the same prefix counts the same.
proof fn lemma_counts_prefix(a: Seq<TaskOutcome>, b: Seq<TaskOutcome>, j: int)
    requires
        j <= a.len(),
        a.len() <= b.len(),
        forall|x: int| 0 <= x < a.len() ==> a[x] == b[x],
    ensures
        count_succ(b, j) == count_succ(a, j),
    decreases j,
{
    if j > 0 {
        lemma_counts_prefix(a, b, j - 1);
    }
}

/// As `lemma_counts_prefix`, for the byte totals.
proof fn lemma_sums_prefix(a: Seq<TaskOutcome>, b: Seq<TaskOutcome>, j: int)
    requires
        j <= a.len(),
        a.len() <= b.len(),
        forall|x: int| 0 <= x < a.len() ==> a[x] == b[x],
    ensures
        sum_freed(b, j) == sum_freed(a, j),
    decreases j,
{
    if j > 0 {
        lemma_sums_prefix(a, b, j - 1);
    }
}

} // verus!
