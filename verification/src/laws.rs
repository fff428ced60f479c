//! The engine's guarantees, stated and proved once over all inputs.

use vstd::prelude::*;
use crate::cmd::{is_clean_target, Cmd, CommandType};
use crate::engine::{
    clean_rel, cmd_matches_at, count_succ, denied_at, dir_tasks, plan_paths, remove_targets, run_rel, run_step_ok,
    sum_freed, TaskOutcome,
};
use crate::engine::size_at;
use crate::fs_model::{
    dir_at, excluded_name, files_total, find_idx, lemma_find_idx, meas_dir, meas_files, meas_subs,
    scan_result, scan_subs, scan_tree, subs_total, tree_size, DirTree,
};

verus! {

/// No segment of the path names an excluded or dot-prefixed directory.
pub open spec fn path_clean(p: Seq<Seq<char>>, excl: Seq<Seq<char>>) -> bool {
    forall|k: int| 0 <= k < p.len() ==> !excluded_name(#[trigger] p[k], excl)
}

proof fn lemma_scan_subs_clean(subs: Seq<DirTree>, j: int, excl: Seq<Seq<char>>, depth: nat)
    ensures
        forall|x: int|
            0 <= x < scan_subs(subs, j, excl, depth).0.len() ==> path_clean(
                #[trigger] scan_subs(subs, j, excl, depth).0[x],
                excl,
            ),
    decreases subs, 0int, j,
{
    if j > 0 && subs.len() >= j {
        lemma_scan_subs_clean(subs, j - 1, excl, depth);
        let p = scan_subs(subs, j - 1, excl, depth);
        let s = subs[j - 1];
        if !excluded_name(s.name@, excl) && depth != 0 {
            lemma_scan_tree_clean(s, excl, (depth - 1) as nat);
            let c = scan_tree(s, excl, (depth - 1) as nat);
            let mapped = c.0.map_values(|q: Seq<Seq<char>>| seq![s.name@] + q);
            assert forall|x: int|
                0 <= x < scan_subs(subs, j, excl, depth).0.len() implies path_clean(
                #[trigger] scan_subs(subs, j, excl, depth).0[x],
                excl,
            ) by {
                if x >= p.0.len() {
                    let q = c.0[x - p.0.len()];
                    assert(path_clean(q, excl));
                    assert(mapped[x - p.0.len()] == seq![s.name@] + q);
                    assert forall|k: int|
                        0 <= k < (seq![s.name@] + q).len() implies !excluded_name(
                        #[trigger] (seq![s.name@] + q)[k],
                        excl,
                    ) by {
                        if k > 0 {
                            assert((seq![s.name@] + q)[k] == q[k - 1]);
                        }
                    }
                }
            }
        }
    }
}

proof fn lemma_scan_tree_clean(d: DirTree, excl: Seq<Seq<char>>, depth: nat)
    ensures
        forall|x: int|
            0 <= x < scan_tree(d, excl, depth).0.len() ==> path_clean(
                #[trigger] scan_tree(d, excl, depth).0[x],
                excl,
            ),
    decreases d, 1int, 0int,
{
    lemma_scan_subs_clean(d.subdirs@, d.subdirs@.len() as int, excl, depth);
    let s = scan_subs(d.subdirs@, d.subdirs@.len() as int, excl, depth);
    assert forall|x: int|
        0 <= x < scan_tree(d, excl, depth).0.len() implies path_clean(
        #[trigger] scan_tree(d, excl, depth).0[x],
        excl,
    ) by {
        if x == 0 {
            assert(scan_tree(d, excl, depth).0[0] =~= Seq::<Seq<char>>::empty());
        } else {
            assert(scan_tree(d, excl, depth).0[x] == s.0[x - 1]);
        }
    }
}

/// Every task a directory yields keeps that directory's path.
proof fn lemma_dir_tasks_path(t: DirTree, p: Seq<Seq<char>>, cmds: Seq<Cmd>, j: int)
    ensures
        forall|x: int|
            0 <= x < dir_tasks(t, p, cmds, j).len() ==> (#[trigger] dir_tasks(t, p, cmds, j)[x]).0
                == p,
    decreases j,
{
    if j > 0 && cmds.len() >= j {
        lemma_dir_tasks_path(t, p, cmds, j - 1);
        let prev = dir_tasks(t, p, cmds, j - 1);
        assert forall|x: int|
            0 <= x < dir_tasks(t, p, cmds, j).len() implies (#[trigger] dir_tasks(
            t,
            p,
            cmds,
            j,
        )[x]).0 == p by {
            if x < prev.len() {
                assert(dir_tasks(t, p, cmds, j)[x] == prev[x]);
            }
        }
    }
}

/// Every planned task points at one of the scanned paths.
proof fn lemma_plan_paths_from(
    t: DirTree,
    paths: Seq<Seq<Seq<char>>>,
    i: int,
    cmds: Seq<Cmd>,
    x: int,
)
    requires
        0 <= x < plan_paths(t, paths, i, cmds).len(),
    ensures
        exists|y: int|
            0 <= y < paths.len() && (#[trigger] paths[y]) == plan_paths(t, paths, i, cmds)[x].0,
    decreases i,
{
    if i > 0 && paths.len() >= i {
        let prev = plan_paths(t, paths, i - 1, cmds);
        if x < prev.len() {
            lemma_plan_paths_from(t, paths, i - 1, cmds, x);
        } else {
            lemma_dir_tasks_path(t, paths[i - 1], cmds, cmds.len() as int);
            assert(plan_paths(t, paths, i, cmds)[x].0 == paths[i - 1]);
        }
    }
}

/// No cleanup task is ever planned for a directory named in the exclusion
/// set or starting with a dot, nor for any of its descendants: every
/// segment of every planned task's path is unexcluded, and a run whose root
/// is itself excluded plans nothing.
pub proof fn lemma_no_task_in_excluded(
    t0: DirTree,
    excl: Seq<Seq<char>>,
    depth: nat,
    cmds: Seq<Cmd>,
)
    ensures
        ({
            let paths = scan_result(t0, excl, depth).0;
            let tasks = plan_paths(t0, paths, paths.len() as int, cmds);
            forall|x: int| 0 <= x < tasks.len() ==> path_clean((#[trigger] tasks[x]).0, excl)
        }),
        excluded_name(t0.name@, excl) ==> plan_paths(
            t0,
            scan_result(t0, excl, depth).0,
            scan_result(t0, excl, depth).0.len() as int,
            cmds,
        ).len() == 0,
{
    let paths = scan_result(t0, excl, depth).0;
    let tasks = plan_paths(t0, paths, paths.len() as int, cmds);
    if !excluded_name(t0.name@, excl) {
        lemma_scan_tree_clean(t0, excl, depth);
    }
    assert forall|x: int| 0 <= x < tasks.len() implies path_clean((#[trigger] tasks[x]).0, excl) by {
        lemma_plan_paths_from(t0, paths, paths.len() as int, cmds, x);
    }
}

/// The depth ceiling is respected: no reported path descends more than
/// `depth` levels below the scanned directory.
pub proof fn lemma_scan_depth_bound(d: DirTree, excl: Seq<Seq<char>>, depth: nat)
    ensures
        forall|x: int|
            0 <= x < scan_tree(d, excl, depth).0.len() ==> (#[trigger] scan_tree(
                d,
                excl,
                depth,
            ).0[x]).len() <= depth,
    decreases d, 1int, 0int,
{
    lemma_scan_subs_depth_bound(d.subdirs@, d.subdirs@.len() as int, excl, depth);
    let s = scan_subs(d.subdirs@, d.subdirs@.len() as int, excl, depth);
    assert forall|x: int|
        0 <= x < scan_tree(d, excl, depth).0.len() implies (#[trigger] scan_tree(
        d,
        excl,
        depth,
    ).0[x]).len() <= depth by {
        if x == 0 {
            assert(scan_tree(d, excl, depth).0[0] =~= Seq::<Seq<char>>::empty());
        } else {
            assert(scan_tree(d, excl, depth).0[x] == s.0[x - 1]);
        }
    }
}

proof fn lemma_scan_subs_depth_bound(subs: Seq<DirTree>, j: int, excl: Seq<Seq<char>>, depth: nat)
    ensures
        forall|x: int|
            0 <= x < scan_subs(subs, j, excl, depth).0.len() ==> (#[trigger] scan_subs(
                subs,
                j,
                excl,
                depth,
            ).0[x]).len() <= depth,
    decreases subs, 0int, j,
{
    if j > 0 && subs.len() >= j {
        lemma_scan_subs_depth_bound(subs, j - 1, excl, depth);
        let p = scan_subs(subs, j - 1, excl, depth);
        let s = subs[j - 1];
        if !excluded_name(s.name@, excl) && depth != 0 {
            lemma_scan_depth_bound(s, excl, (depth - 1) as nat);
            let c = scan_tree(s, excl, (depth - 1) as nat);
            let mapped = c.0.map_values(|q: Seq<Seq<char>>| seq![s.name@] + q);
            assert forall|x: int|
                0 <= x < scan_subs(subs, j, excl, depth).0.len() implies (#[trigger] scan_subs(
                subs,
                j,
                excl,
                depth,
            ).0[x]).len() <= depth by {
                if x >= p.0.len() {
                    assert(mapped[x - p.0.len()] == seq![s.name@] + c.0[x - p.0.len()]);
                }
            }
        }
    }
}

proof fn lemma_files_total_nonneg(files: Seq<crate::fs_model::FileNode>, j: int)
    ensures
        files_total(files, j) >= 0,
    decreases j,
{
    if j > 0 && files.len() >= j {
        lemma_files_total_nonneg(files, j - 1);
    }
}

proof fn lemma_tree_size_nonneg(d: DirTree)
    ensures
        tree_size(d) >= 0,
    decreases d, 1int, 0int,
{
    lemma_files_total_nonneg(d.files@, d.files@.len() as int);
    lemma_subs_total_nonneg(d.subdirs@, d.subdirs@.len() as int);
}

proof fn lemma_subs_total_nonneg(subs: Seq<DirTree>, j: int)
    ensures
        subs_total(subs, j) >= 0,
    decreases subs, 0int, j,
{
    if j > 0 && subs.len() >= j {
        lemma_subs_total_nonneg(subs, j - 1);
        lemma_tree_size_nonneg(subs[j - 1]);
    }
}

proof fn lemma_meas_files_bounded(files: Seq<crate::fs_model::FileNode>, j: int, budget: nat)
    requires
        0 <= j <= files.len(),
    ensures
        meas_files(files, j, budget).0 <= files_total(files, j),
    decreases j,
{
    if j > 0 {
        lemma_meas_files_bounded(files, j - 1, budget);
    }
}

/// A ceiling-bounded measurement is a lower bound: it never exceeds the
/// directory's true byte total.
pub proof fn lemma_size_lower_bound(d: DirTree, depth: nat, budget: nat)
    ensures
        meas_dir(d, depth, budget).0 <= tree_size(d),
        tree_size(d) >= 0,
    decreases d, 1int, 0int,
{
    lemma_tree_size_nonneg(d);
    lemma_meas_files_bounded(d.files@, d.files@.len() as int, budget);
    let f = meas_files(d.files@, d.files@.len() as int, budget);
    if f.2 {
        lemma_subs_total_nonneg(d.subdirs@, d.subdirs@.len() as int);
    } else {
        lemma_meas_subs_bounded(d.subdirs@, d.subdirs@.len() as int, depth, f.1);
    }
}

proof fn lemma_meas_subs_bounded(subs: Seq<DirTree>, j: int, depth: nat, budget: nat)
    ensures
        meas_subs(subs, j, depth, budget).0 <= subs_total(subs, j),
    decreases subs, 0int, j,
{
    if j > 0 && subs.len() >= j {
        lemma_meas_subs_bounded(subs, j - 1, depth, budget);
        lemma_subs_total_nonneg(subs, j - 1);
        lemma_tree_size_nonneg(subs[j - 1]);
        let p = meas_subs(subs, j - 1, depth, budget);
        if !p.2 && depth != 0 {
            lemma_size_lower_bound(subs[j - 1], (depth - 1) as nat, p.1);
        }
    }
}

proof fn lemma_meas_files_exact(files: Seq<crate::fs_model::FileNode>, j: int, budget: nat)
    requires
        0 <= j <= files.len(),
        !meas_files(files, j, budget).2,
    ensures
        meas_files(files, j, budget).0 == files_total(files, j),
    decreases j,
{
    if j > 0 {
        lemma_meas_files_exact(files, j - 1, budget);
    }
}

/// A measurement that neither ceiling interfered with is exact: it equals
/// the directory's true byte total.
pub proof fn lemma_size_exact(d: DirTree, depth: nat, budget: nat)
    requires
        !meas_dir(d, depth, budget).2,
        !meas_dir(d, depth, budget).3,
    ensures
        meas_dir(d, depth, budget).0 == tree_size(d),
    decreases d, 1int, 0int,
{
    let f = meas_files(d.files@, d.files@.len() as int, budget);
    lemma_meas_files_exact(d.files@, d.files@.len() as int, budget);
    lemma_meas_subs_exact(d.subdirs@, d.subdirs@.len() as int, depth, f.1);
}

proof fn lemma_meas_subs_exact(subs: Seq<DirTree>, j: int, depth: nat, budget: nat)
    requires
        !meas_subs(subs, j, depth, budget).2,
        !meas_subs(subs, j, depth, budget).3,
    ensures
        meas_subs(subs, j, depth, budget).0 == subs_total(subs, j),
    decreases subs, 0int, j,
{
    if j > 0 && subs.len() >= j {
        let p = meas_subs(subs, j - 1, depth, budget);
        if p.2 {
            assert(meas_subs(subs, j, depth, budget) == p);
        } else if depth == 0 {
            assert(meas_subs(subs, j, depth, budget).3);
        } else {
            let dm = meas_dir(subs[j - 1], (depth - 1) as nat, p.1);
            assert(!dm.2 && !dm.3);
            assert(!p.3);
            lemma_meas_subs_exact(subs, j - 1, depth, budget);
            lemma_size_exact(subs[j - 1], (depth - 1) as nat, p.1);
        }
    }
}

/// How many of the first `j` tasks the failure injection allows.
pub open spec fn count_allowed(denied: Seq<bool>, j: int) -> int
    decreases j,
{
    if j <= 0 {
        0
    } else {
        count_allowed(denied, j - 1) + if denied_at(denied, j - 1) {
            0int
        } else {
            1int
        }
    }
}

/// Partial failure is contained: when each outcome succeeds exactly where
/// the injection allowed it, the number of successes is exactly the number
/// of allowed tasks — denied tasks never drag the others down.
pub proof fn lemma_partial_failure_count(outs: Seq<TaskOutcome>, denied: Seq<bool>, j: int)
    requires
        0 <= j <= outs.len(),
        forall|i: int|
            0 <= i < j ==> ((#[trigger] outs[i].status) is Succeeded <==> !denied_at(denied, i)),
    ensures
        count_succ(outs, j) == count_allowed(denied, j),
    decreases j,
{
    if j > 0 {
        lemma_partial_failure_count(outs, denied, j - 1);
    }
}

/// Cleaning keeps a subdirectory exactly when its name is not one of the
/// ecosystem's cache names, so what survives one cleaning survives the
/// next: deleting the known paths twice is the same as deleting them once.
pub proof fn lemma_remove_targets_idempotent(subs: Seq<DirTree>, c: CommandType)
    ensures
        ({
            let once = remove_targets(subs, subs.len() as int, c);
            remove_targets(once, once.len() as int, c) == once
        }),
{
    lemma_remove_targets_none(subs, subs.len() as int, c);
    let once = remove_targets(subs, subs.len() as int, c);
    lemma_remove_targets_keep_all(once, once.len() as int, c);
    assert(once.subrange(0, once.len() as int) =~= once);
}

/// Nothing that survives cleaning is itself a cache name.
proof fn lemma_remove_targets_none(subs: Seq<DirTree>, j: int, c: CommandType)
    ensures
        forall|x: int|
            0 <= x < remove_targets(subs, j, c).len() ==> !is_clean_target(
                c,
                (#[trigger] remove_targets(subs, j, c)[x]).name@,
            ),
    decreases j,
{
    if j > 0 && subs.len() >= j {
        lemma_remove_targets_none(subs, j - 1, c);
        let prev = remove_targets(subs, j - 1, c);
        assert forall|x: int|
            0 <= x < remove_targets(subs, j, c).len() implies !is_clean_target(
            c,
            (#[trigger] remove_targets(subs, j, c)[x]).name@,
        ) by {
            if x < prev.len() {
                assert(remove_targets(subs, j, c)[x] == prev[x]);
            }
        }
    }
}

/// Cleaning a list that holds no cache names keeps the list as it is.
proof fn lemma_remove_targets_keep_all(subs: Seq<DirTree>, j: int, c: CommandType)
    requires
        0 <= j <= subs.len(),
        forall|x: int| 0 <= x < j ==> !is_clean_target(c, (#[trigger] subs[x]).name@),
    ensures
        remove_targets(subs, j, c) == subs.subrange(0, j),
    decreases j,
{
    if j > 0 {
        lemma_remove_targets_keep_all(subs, j - 1, c);
    }
    assert(remove_targets(subs, j, c) =~= subs.subrange(0, j));
}

/// The directory at `path` (if it still exists) holds none of ecosystem
/// `c`'s cache subdirectories.
pub open spec fn no_targets_at(t: DirTree, path: Seq<Seq<char>>, c: CommandType) -> bool {
    match dir_at(t, path) {
        Some(d) => forall|i: int|
            0 <= i < d.subdirs@.len() ==> !is_clean_target(c, (#[trigger] d.subdirs@[i]).name@),
        None => true,
    }
}

/// A cleanup leaves the directory it cleaned with none of the ecosystem's
/// cache subdirectories: the cleaned state is clean.
pub proof fn lemma_clean_establishes_clean(
    t: DirTree,
    path: Seq<Seq<char>>,
    c: CommandType,
    r: DirTree,
)
    requires
        clean_rel(t, path, c, r),
    ensures
        no_targets_at(r, path, c),
    decreases path.len(),
{
    if path.len() == 0 {
        lemma_remove_targets_none(t.subdirs@, t.subdirs@.len() as int, c);
    } else {
        let ix = find_idx(t.subdirs@, 0, path[0]);
        if ix >= 0 {
            lemma_find_idx(t.subdirs@, 0, path[0]);
            assert(clean_rel(t.subdirs@[ix], path.drop_first(), c, r.subdirs@[ix]));
            assert forall|y: int|
                0 <= y < t.subdirs@.len() implies (#[trigger] t.subdirs@[y].name@)
                == r.subdirs@[y].name@ by {
                if y != ix {
                    assert(r.subdirs@[y] == t.subdirs@[y]);
                }
            }
            lemma_find_idx_congruence(t.subdirs@, r.subdirs@, 0, path[0]);
            lemma_clean_establishes_clean(t.subdirs@[ix], path.drop_first(), c, r.subdirs@[ix]);
        }
    }
}

/// Two trees that agree on everything observable: same directory name, the
/// same files, and pairwise-similar subdirectories.  (The trees may still
/// differ as heap values, since re-building a vector never yields the same
/// vector value.)
pub open spec fn similar_tree(a: DirTree, b: DirTree) -> bool
    decreases a, 1int, 0int,
{
    &&& a.name == b.name
    &&& a.files == b.files
    &&& a.subdirs@.len() == b.subdirs@.len()
    &&& similar_subs(a.subdirs@, b.subdirs@, a.subdirs@.len() as int)
}

/// Pairwise similarity of the first `j` subdirectories.
pub open spec fn similar_subs(x: Seq<DirTree>, y: Seq<DirTree>, j: int) -> bool
    decreases x, 0int, j,
{
    j <= 0 || x.len() < j || y.len() < j || (similar_subs(x, y, j - 1) && similar_tree(
        x[j - 1],
        y[j - 1],
    ))
}

/// Similarity is reflexive.
pub proof fn lemma_similar_refl(d: DirTree)
    ensures
        similar_tree(d, d),
    decreases d, 1int, 0int,
{
    lemma_similar_refl_subs(d.subdirs@, d.subdirs@.len() as int);
}

proof fn lemma_similar_refl_subs(x: Seq<DirTree>, j: int)
    ensures
        similar_subs(x, x, j),
    decreases x, 0int, j,
{
    if j > 0 && x.len() >= j {
        lemma_similar_refl_subs(x, j - 1);
        lemma_similar_refl(x[j - 1]);
    }
}

/// Unrolls pairwise similarity to one index.
proof fn lemma_similar_subs_index(x: Seq<DirTree>, y: Seq<DirTree>, j: int, t: int)
    requires
        similar_subs(x, y, j),
        j <= x.len(),
        j <= y.len(),
        0 <= t < j,
    ensures
        similar_tree(x[t], y[t]),
    decreases j,
{
    if t < j - 1 {
        lemma_similar_subs_index(x, y, j - 1, t);
    }
}

/// Builds pairwise similarity from elementwise similarity.
proof fn lemma_similar_subs_intro(x: Seq<DirTree>, y: Seq<DirTree>, j: int)
    requires
        forall|t: int| 0 <= t < j ==> similar_tree(#[trigger] x[t], y[t]),
    ensures
        similar_subs(x, y, j),
    decreases x, 0int, j,
{
    if j > 0 && x.len() >= j && y.len() >= j {
        lemma_similar_subs_intro(x, y, j - 1);
    }
}

/// Lists whose members carry the same names in the same places are
/// searched alike.
proof fn lemma_find_idx_congruence(x: Seq<DirTree>, y: Seq<DirTree>, i: int, n: Seq<char>)
    requires
        x.len() == y.len(),
        forall|t: int| 0 <= t < x.len() ==> (#[trigger] x[t].name@) == y[t].name@,
    ensures
        find_idx(x, i, n) == find_idx(y, i, n),
    decreases x.len() - i,
{
    if 0 <= i < x.len() && x[i].name@ != n {
        lemma_find_idx_congruence(x, y, i + 1, n);
    }
}

/// Similar trees measure the same.
pub proof fn lemma_similar_meas(a: DirTree, b: DirTree, depth: nat, budget: nat)
    requires
        similar_tree(a, b),
    ensures
        meas_dir(a, depth, budget) == meas_dir(b, depth, budget),
    decreases a, 1int, 0int,
{
    let f = crate::fs_model::meas_files(a.files@, a.files@.len() as int, budget);
    if !f.2 {
        lemma_similar_meas_subs(a.subdirs@, b.subdirs@, a.subdirs@.len() as int, depth, f.1);
    }
}

proof fn lemma_similar_meas_subs(x: Seq<DirTree>, y: Seq<DirTree>, j: int, depth: nat, budget: nat)
    requires
        x.len() == y.len(),
        similar_subs(x, y, j),
        j <= x.len(),
    ensures
        meas_subs(x, j, depth, budget) == meas_subs(y, j, depth, budget),
    decreases x, 0int, j,
{
    if j > 0 && x.len() >= j {
        lemma_similar_meas_subs(x, y, j - 1, depth, budget);
        let p = meas_subs(x, j - 1, depth, budget);
        if !p.2 && depth != 0 {
            lemma_similar_subs_index(x, y, j, j - 1);
            lemma_similar_meas(x[j - 1], y[j - 1], (depth - 1) as nat, p.1);
        }
    }
}

/// Similar trees resolve every path alike, to similar directories.
pub proof fn lemma_similar_dir_at(a: DirTree, b: DirTree, path: Seq<Seq<char>>)
    requires
        similar_tree(a, b),
    ensures
        match (dir_at(a, path), dir_at(b, path)) {
            (Some(x), Some(y)) => similar_tree(x, y),
            (None, None) => true,
            _ => false,
        },
    decreases path.len(),
{
    if path.len() > 0 {
        assert forall|t: int|
            0 <= t < a.subdirs@.len() implies (#[trigger] a.subdirs@[t].name@)
            == b.subdirs@[t].name@ by {
            lemma_similar_subs_index(a.subdirs@, b.subdirs@, a.subdirs@.len() as int, t);
        }
        lemma_find_idx_congruence(a.subdirs@, b.subdirs@, 0, path[0]);
        let ix = find_idx(a.subdirs@, 0, path[0]);
        if ix >= 0 {
            lemma_find_idx(a.subdirs@, 0, path[0]);
            lemma_similar_subs_index(a.subdirs@, b.subdirs@, a.subdirs@.len() as int, ix);
            lemma_similar_dir_at(a.subdirs@[ix], b.subdirs@[ix], path.drop_first());
        }
    }
}

/// Similarity is transitive.
pub proof fn lemma_similar_trans(a: DirTree, b: DirTree, c: DirTree)
    requires
        similar_tree(a, b),
        similar_tree(b, c),
    ensures
        similar_tree(a, c),
    decreases a, 1int, 0int,
{
    assert forall|t: int|
        0 <= t < a.subdirs@.len() implies similar_tree(#[trigger] a.subdirs@[t], c.subdirs@[t]) by {
        lemma_similar_subs_index(a.subdirs@, b.subdirs@, a.subdirs@.len() as int, t);
        lemma_similar_subs_index(b.subdirs@, c.subdirs@, b.subdirs@.len() as int, t);
        lemma_similar_trans(a.subdirs@[t], b.subdirs@[t], c.subdirs@[t]);
    }
    lemma_similar_subs_intro(a.subdirs@, c.subdirs@, a.subdirs@.len() as int);
}

/// Similar trees are clean in the same places.
pub proof fn lemma_similar_no_targets(
    a: DirTree,
    b: DirTree,
    path: Seq<Seq<char>>,
    c: CommandType,
)
    requires
        similar_tree(a, b),
        no_targets_at(b, path, c),
    ensures
        no_targets_at(a, path, c),
{
    lemma_similar_dir_at(a, b, path);
    match (dir_at(a, path), dir_at(b, path)) {
        (Some(x), Some(y)) => {
            assert forall|i: int|
                0 <= i < x.subdirs@.len() implies !is_clean_target(
                c,
                (#[trigger] x.subdirs@[i]).name@,
            ) by {
                lemma_similar_subs_index(x.subdirs@, y.subdirs@, x.subdirs@.len() as int, i);
            }
        },
        _ => {},
    }
}

/// Cleaning a directory that is already clean changes nothing observable.
pub proof fn lemma_clean_clean_noop(t: DirTree, path: Seq<Seq<char>>, c: CommandType, r: DirTree)
    requires
        no_targets_at(t, path, c),
        clean_rel(t, path, c, r),
    ensures
        similar_tree(r, t),
    decreases path.len(),
{
    if path.len() == 0 {
        assert(dir_at(t, path) == Some(t));
        assert forall|x: int|
            0 <= x < t.subdirs@.len() implies !is_clean_target(
            c,
            (#[trigger] t.subdirs@[x]).name@,
        ) by {
            assert(!is_clean_target(c, dir_at(t, path).unwrap().subdirs@[x].name@));
        }
        lemma_remove_targets_keep_all(t.subdirs@, t.subdirs@.len() as int, c);
        assert(t.subdirs@.subrange(0, t.subdirs@.len() as int) =~= t.subdirs@);
        lemma_similar_refl_subs(r.subdirs@, r.subdirs@.len() as int);
        assert(similar_subs(r.subdirs@, t.subdirs@, r.subdirs@.len() as int)) by {
            assert(r.subdirs@ == t.subdirs@);
        }
    } else {
        let ix = find_idx(t.subdirs@, 0, path[0]);
        if ix < 0 {
            assert(r.subdirs@ == t.subdirs@);
            lemma_similar_refl_subs(r.subdirs@, r.subdirs@.len() as int);
        } else {
            lemma_find_idx(t.subdirs@, 0, path[0]);
            assert(dir_at(t, path) == dir_at(t.subdirs@[ix], path.drop_first()));
            lemma_clean_clean_noop(t.subdirs@[ix], path.drop_first(), c, r.subdirs@[ix]);
            assert forall|y: int|
                0 <= y < r.subdirs@.len() implies similar_tree(
                #[trigger] r.subdirs@[y],
                t.subdirs@[y],
            ) by {
                if y != ix {
                    assert(r.subdirs@[y] == t.subdirs@[y]);
                    lemma_similar_refl(r.subdirs@[y]);
                }
            }
            lemma_similar_subs_intro(r.subdirs@, t.subdirs@, r.subdirs@.len() as int);
        }
    }
}

/// Similar trees measure alike at every path.
pub proof fn lemma_similar_size_at(
    a: DirTree,
    b: DirTree,
    path: Seq<Seq<char>>,
    max_depth: nat,
    max_files: nat,
)
    requires
        similar_tree(a, b),
    ensures
        size_at(a, path, max_depth, max_files) == size_at(b, path, max_depth, max_files),
{
    lemma_similar_dir_at(a, b, path);
    match (dir_at(a, path), dir_at(b, path)) {
        (Some(x), Some(y)) => {
            lemma_similar_meas(x, y, max_depth, max_files);
        },
        _ => {},
    }
}

/// Cleaning is idempotent: cleaning a directory that one cleaning already
/// reached changes nothing observable the second time.
pub proof fn lemma_clean_twice_noop(
    t: DirTree,
    path: Seq<Seq<char>>,
    c: CommandType,
    r1: DirTree,
    r2: DirTree,
)
    requires
        clean_rel(t, path, c, r1),
        clean_rel(r1, path, c, r2),
    ensures
        similar_tree(r2, r1),
    decreases path.len(),
{
    if path.len() == 0 {
        lemma_remove_targets_idempotent(t.subdirs@, c);
        lemma_similar_refl_subs(r2.subdirs@, r2.subdirs@.len() as int);
        assert(similar_subs(r2.subdirs@, r1.subdirs@, r2.subdirs@.len() as int)) by {
            assert(r2.subdirs@ == r1.subdirs@);
        }
    } else {
        let ix = find_idx(t.subdirs@, 0, path[0]);
        if ix < 0 {
            assert(r2.subdirs@ == r1.subdirs@);
            lemma_similar_refl_subs(r2.subdirs@, r2.subdirs@.len() as int);
        } else {
            lemma_find_idx(t.subdirs@, 0, path[0]);
            assert forall|y: int|
                0 <= y < t.subdirs@.len() implies (#[trigger] t.subdirs@[y].name@)
                == r1.subdirs@[y].name@ by {
                if y != ix {
                    assert(r1.subdirs@[y] == t.subdirs@[y]);
                } else {
                    assert(clean_rel(t.subdirs@[ix], path.drop_first(), c, r1.subdirs@[ix]));
                }
            }
            lemma_find_idx_congruence(t.subdirs@, r1.subdirs@, 0, path[0]);
            assert(find_idx(r1.subdirs@, 0, path[0]) == ix);
            lemma_clean_twice_noop(
                t.subdirs@[ix],
                path.drop_first(),
                c,
                r1.subdirs@[ix],
                r2.subdirs@[ix],
            );
            assert forall|y: int|
                0 <= y < r2.subdirs@.len() implies similar_tree(
                #[trigger] r2.subdirs@[y],
                r1.subdirs@[y],
            ) by {
                if y != ix {
                    assert(r2.subdirs@[y] == r1.subdirs@[y]);
                    lemma_similar_refl(r2.subdirs@[y]);
                }
            }
            lemma_similar_subs_intro(r2.subdirs@, r1.subdirs@, r2.subdirs@.len() as int);
        }
    }
}

/// Searching a list extended at its end finds what the list found, or the
/// new element.
proof fn lemma_find_idx_push(s: Seq<DirTree>, e: DirTree, i: int, n: Seq<char>)
    requires
        0 <= i <= s.len(),
    ensures
        find_idx(s, i, n) >= 0 ==> find_idx(s.push(e), i, n) == find_idx(s, i, n),
        find_idx(s, i, n) < 0 && e.name@ == n ==> find_idx(s.push(e), i, n) == s.len(),
        find_idx(s, i, n) < 0 && e.name@ != n ==> find_idx(s.push(e), i, n) < 0,
    decreases s.len() - i,
{
    if i < s.len() {
        assert(s.push(e)[i] == s[i]);
        lemma_find_idx_push(s, e, i + 1, n);
    } else {
        assert(s.push(e)[i] == e);
        assert(find_idx(s.push(e), i + 1, n) == -1);
    }
}

/// Every subdirectory that survives a cleaning was there before.
proof fn lemma_remove_targets_members(subs: Seq<DirTree>, j: int, c: CommandType)
    ensures
        forall|x: int|
            0 <= x < remove_targets(subs, j, c).len() ==> exists|y: int|
                0 <= y < subs.len() && (#[trigger] remove_targets(subs, j, c)[x]) == subs[y],
    decreases j,
{
    if j > 0 && subs.len() >= j {
        lemma_remove_targets_members(subs, j - 1, c);
        let prev = remove_targets(subs, j - 1, c);
        assert forall|x: int|
            0 <= x < remove_targets(subs, j, c).len() implies exists|y: int|
            0 <= y < subs.len() && (#[trigger] remove_targets(subs, j, c)[x]) == subs[y] by {
            if x < prev.len() {
                assert(remove_targets(subs, j, c)[x] == prev[x]);
            } else {
                assert(remove_targets(subs, j, c)[x] == subs[j - 1]);
            }
        }
    }
}

/// Cleaning removes either every subdirectory of a name or none of them,
/// so the first survivor of a name is the first holder of that name.
proof fn lemma_find_idx_filtered(subs: Seq<DirTree>, j: int, c: CommandType, n: Seq<char>)
    requires
        0 <= j <= subs.len(),
        !is_clean_target(c, n),
    ensures
        ({
            let f = remove_targets(subs, j, c);
            let o = find_idx(subs, 0, n);
            if 0 <= o < j {
                find_idx(f, 0, n) >= 0 && f[find_idx(f, 0, n)] == subs[o]
            } else {
                find_idx(f, 0, n) < 0
            }
        }),
    decreases j,
{
    lemma_find_idx(subs, 0, n);
    if j > 0 {
        lemma_find_idx_filtered(subs, j - 1, c, n);
        let fp = remove_targets(subs, j - 1, c);
        let f = remove_targets(subs, j, c);
        let o = find_idx(subs, 0, n);
        lemma_find_idx(fp, 0, n);
        if !is_clean_target(c, subs[j - 1].name@) {
            assert(f == fp.push(subs[j - 1]));
            lemma_find_idx_push(fp, subs[j - 1], 0, n);
        }
    }
}

/// The directory has a subdirectory of this name.
pub open spec fn has_sub_name(d: DirTree, n: Seq<char>) -> bool {
    exists|y: int| 0 <= y < d.subdirs@.len() && (#[trigger] d.subdirs@[y].name@) == n
}

/// Every subdirectory name of `d2` is a subdirectory name of `d1`.
pub open spec fn names_cover(d2: DirTree, d1: DirTree) -> bool {
    forall|i: int|
        0 <= i < d2.subdirs@.len() ==> #[trigger] has_sub_name(d1, d2.subdirs@[i].name@)
}

/// How a changed tree shows through at one path: a directory that resolves
/// in the changed tree resolved in the first one, with the same files and
/// with no subdirectory names it did not have there.
pub open spec fn transported(t: DirTree, r: DirTree, p: Seq<Seq<char>>) -> bool {
    match dir_at(r, p) {
        Some(d2) => match dir_at(t, p) {
            Some(d1) => d2.files == d1.files && names_cover(d2, d1),
            None => false,
        },
        None => true,
    }
}

/// The transport conclusion holds of a tree against itself.
proof fn lemma_transported_refl(t: DirTree, p: Seq<Seq<char>>)
    ensures
        transported(t, t, p),
{
    match dir_at(t, p) {
        Some(d) => {
            lemma_names_cover_refl(d);
        },
        None => {},
    }
}

/// A directory's subdirectory names cover themselves.
proof fn lemma_names_cover_refl(d: DirTree)
    ensures
        names_cover(d, d),
{
    assert forall|i: int|
        0 <= i < d.subdirs@.len() implies #[trigger] has_sub_name(d, d.subdirs@[i].name@) by {
        assert(0 <= i < d.subdirs@.len() && d.subdirs@[i].name@ == d.subdirs@[i].name@);
    }
}

/// Subdirectory-name coverage between directories with pointwise equal
/// names.
proof fn lemma_names_cover_pointwise(a: DirTree, b: DirTree)
    requires
        a.subdirs@.len() <= b.subdirs@.len(),
        forall|i: int|
            0 <= i < a.subdirs@.len() ==> (#[trigger] a.subdirs@[i].name@) == b.subdirs@[i].name@,
    ensures
        names_cover(a, b),
{
    assert forall|i: int|
        0 <= i < a.subdirs@.len() implies #[trigger] has_sub_name(b, a.subdirs@[i].name@) by {
        assert(0 <= i < b.subdirs@.len() && b.subdirs@[i].name@ == a.subdirs@[i].name@);
    }
}

/// The transport conclusion when the two trees share their subdirectory
/// list.
proof fn lemma_transported_equal_subs(t: DirTree, r: DirTree, p: Seq<Seq<char>>)
    requires
        r.files == t.files,
        r.subdirs@ == t.subdirs@,
    ensures
        transported(t, r, p),
{
    lemma_transported_refl(t, p);
    if p.len() == 0 {
        assert(dir_at(r, p) == Some(r));
        assert(dir_at(t, p) == Some(t));
        lemma_names_cover_pointwise(r, t);
    } else {
        assert(find_idx(r.subdirs@, 0, p[0]) == find_idx(t.subdirs@, 0, p[0]));
        let ix = find_idx(t.subdirs@, 0, p[0]);
        if ix >= 0 {
            assert(dir_at(r, p) == dir_at(t.subdirs@[ix], p.drop_first()));
            assert(dir_at(t, p) == dir_at(t.subdirs@[ix], p.drop_first()));
        }
    }
}

/// The transport step at the cleaned directory itself.
proof fn lemma_clean_transport_base(t: DirTree, c2: CommandType, r: DirTree, p: Seq<Seq<char>>)
    requires
        clean_rel(t, Seq::<Seq<char>>::empty(), c2, r),
    ensures
        transported(t, r, p),
{
    let f = remove_targets(t.subdirs@, t.subdirs@.len() as int, c2);
    lemma_remove_targets_members(t.subdirs@, t.subdirs@.len() as int, c2);
    if p.len() == 0 {
        assert(dir_at(r, p) == Some(r));
        assert(dir_at(t, p) == Some(t));
        assert(names_cover(r, t)) by {
            assert forall|i: int|
                0 <= i < r.subdirs@.len() implies #[trigger] has_sub_name(
                t,
                r.subdirs@[i].name@,
            ) by {
                assert(r.subdirs@[i] == f[i]);
                let y = choose|y: int| 0 <= y < t.subdirs@.len() && f[i] == t.subdirs@[y];
                assert(0 <= y < t.subdirs@.len() && t.subdirs@[y].name@ == r.subdirs@[i].name@);
            }
        }
    } else {
        let k2 = find_idx(r.subdirs@, 0, p[0]);
        if k2 >= 0 {
            lemma_find_idx(r.subdirs@, 0, p[0]);
            lemma_remove_targets_none(t.subdirs@, t.subdirs@.len() as int, c2);
            assert(r.subdirs@[k2] == f[k2]);
            assert(!is_clean_target(c2, p[0]));
            lemma_find_idx_filtered(t.subdirs@, t.subdirs@.len() as int, c2, p[0]);
            let o = find_idx(t.subdirs@, 0, p[0]);
            lemma_find_idx(t.subdirs@, 0, p[0]);
            assert(0 <= o < t.subdirs@.len());
            assert(r.subdirs@[k2] == t.subdirs@[o]);
            assert(dir_at(r, p) == dir_at(t.subdirs@[o], p.drop_first()));
            assert(dir_at(t, p) == dir_at(t.subdirs@[o], p.drop_first()));
            lemma_transported_refl(t.subdirs@[o], p.drop_first());
            match dir_at(t.subdirs@[o], p.drop_first()) {
                Some(d) => {
                    assert(dir_at(r, p) == Some(d));
                    assert(dir_at(t, p) == Some(d));
                },
                None => {},
            }
        }
    }
}

/// How one cleaning step shows through at any path.
proof fn lemma_clean_transport(
    t: DirTree,
    p2: Seq<Seq<char>>,
    c2: CommandType,
    r: DirTree,
    p: Seq<Seq<char>>,
)
    requires
        clean_rel(t, p2, c2, r),
    ensures
        transported(t, r, p),
    decreases p2.len(),
{
    if p2.len() == 0 {
        assert(p2 =~= Seq::<Seq<char>>::empty());
        lemma_clean_transport_base(t, c2, r, p);
    } else {
        let ix = find_idx(t.subdirs@, 0, p2[0]);
        if ix < 0 {
            lemma_transported_equal_subs(t, r, p);
        } else {
            lemma_find_idx(t.subdirs@, 0, p2[0]);
            assert(clean_rel(t.subdirs@[ix], p2.drop_first(), c2, r.subdirs@[ix]));
            assert forall|y: int|
                0 <= y < t.subdirs@.len() implies (#[trigger] t.subdirs@[y].name@)
                == r.subdirs@[y].name@ by {
                if y != ix {
                    assert(r.subdirs@[y] == t.subdirs@[y]);
                }
            }
            if p.len() == 0 {
                assert(dir_at(r, p) == Some(r));
                assert(dir_at(t, p) == Some(t));
                lemma_names_cover_pointwise(r, t);
            } else {
                lemma_find_idx_congruence(t.subdirs@, r.subdirs@, 0, p[0]);
                let k = find_idx(t.subdirs@, 0, p[0]);
                if k >= 0 {
                    lemma_find_idx(t.subdirs@, 0, p[0]);
                    assert(dir_at(t, p) == dir_at(t.subdirs@[k], p.drop_first()));
                    assert(dir_at(r, p) == dir_at(r.subdirs@[k], p.drop_first()));
                    if k == ix {
                        lemma_clean_transport(
                            t.subdirs@[ix],
                            p2.drop_first(),
                            c2,
                            r.subdirs@[ix],
                            p.drop_first(),
                        );
                    } else {
                        assert(r.subdirs@[k] == t.subdirs@[k]);
                        lemma_transported_refl(t.subdirs@[k], p.drop_first());
                    }
                }
            }
        }
    }
}

/// One cleaning step keeps every already-clean spot clean.
proof fn lemma_clean_preserves_clean(
    t: DirTree,
    p2: Seq<Seq<char>>,
    c2: CommandType,
    r: DirTree,
    p: Seq<Seq<char>>,
    c: CommandType,
)
    requires
        clean_rel(t, p2, c2, r),
        no_targets_at(t, p, c),
    ensures
        no_targets_at(r, p, c),
{
    lemma_clean_transport(t, p2, c2, r, p);
    match (dir_at(r, p), dir_at(t, p)) {
        (Some(d2), Some(d1)) => {
            assert forall|i: int|
                0 <= i < d2.subdirs@.len() implies !is_clean_target(
                c,
                (#[trigger] d2.subdirs@[i]).name@,
            ) by {
                assert(names_cover(d2, d1));
                assert(has_sub_name(d1, d2.subdirs@[i].name@));
                let y = choose|y: int|
                    0 <= y < d1.subdirs@.len() && (#[trigger] d1.subdirs@[y].name@)
                        == d2.subdirs@[i].name@;
                assert(!is_clean_target(c, d1.subdirs@[y].name@));
            }
        },
        _ => {},
    }
}

/// The scanner always reports the scanned directory itself.
proof fn lemma_scan_contains_empty(d: DirTree, excl: Seq<Seq<char>>, depth: nat)
    ensures
        scan_tree(d, excl, depth).0.contains(Seq::<Seq<char>>::empty()),
{
    assert(scan_tree(d, excl, depth).0[0] == Seq::<Seq<char>>::empty());
}

/// A reported path below a subdirectory came from scanning that
/// subdirectory.
proof fn lemma_scan_subs_member_elim(
    subs: Seq<DirTree>,
    j: int,
    excl: Seq<Seq<char>>,
    depth: nat,
    q: Seq<Seq<char>>,
)
    requires
        scan_subs(subs, j, excl, depth).0.contains(q),
    ensures
        q.len() > 0,
        depth > 0,
        exists|y: int|
            0 <= y < subs.len() && !excluded_name((#[trigger] subs[y]).name@, excl)
                && subs[y].name@ == q[0] && scan_tree(
                subs[y],
                excl,
                (depth - 1) as nat,
            ).0.contains(q.drop_first()),
    decreases j,
{
    if j > 0 && subs.len() >= j {
        let p = scan_subs(subs, j - 1, excl, depth);
        let s = subs[j - 1];
        let k = choose|k: int|
            0 <= k < scan_subs(subs, j, excl, depth).0.len() && scan_subs(
                subs,
                j,
                excl,
                depth,
            ).0[k] == q;
        if k < p.0.len() {
            assert(p.0[k] == q);
            assert(p.0.contains(q));
            lemma_scan_subs_member_elim(subs, j - 1, excl, depth, q);
        } else {
            let c = scan_tree(s, excl, (depth - 1) as nat);
            let mapped = c.0.map_values(|qq: Seq<Seq<char>>| seq![s.name@] + qq);
            assert(mapped[k - p.0.len()] == q);
            let qq = c.0[k - p.0.len()];
            assert(q == seq![s.name@] + qq);
            assert(q.drop_first() =~= qq);
            assert(c.0.contains(qq));
            assert(0 <= j - 1 < subs.len() && !excluded_name((subs[j - 1]).name@, excl) && subs[j
                - 1].name@ == q[0] && scan_tree(
                subs[j - 1],
                excl,
                (depth - 1) as nat,
            ).0.contains(q.drop_first()));
        }
    } else {
        assert(scan_subs(subs, j, excl, depth).0.len() == 0);
    }
}

/// Scanning more subdirectories keeps everything already reported.
proof fn lemma_scan_subs_mono(
    subs: Seq<DirTree>,
    j1: int,
    j2: int,
    excl: Seq<Seq<char>>,
    depth: nat,
    q: Seq<Seq<char>>,
)
    requires
        scan_subs(subs, j1, excl, depth).0.contains(q),
        j1 <= j2 <= subs.len(),
    ensures
        scan_subs(subs, j2, excl, depth).0.contains(q),
    decreases j2 - j1,
{
    if j1 < j2 {
        let p = scan_subs(subs, j2 - 1, excl, depth);
        lemma_scan_subs_mono(subs, j1, j2 - 1, excl, depth, q);
        let k = choose|k: int| 0 <= k < p.0.len() && p.0[k] == q;
        assert(scan_subs(subs, j2, excl, depth).0[k] == q);
    }
}

/// What a subdirectory's scan reports appears, prefixed with its name, in
/// the scan around it.
proof fn lemma_scan_member_intro(
    d: DirTree,
    excl: Seq<Seq<char>>,
    depth: nat,
    j: int,
    q: Seq<Seq<char>>,
)
    requires
        depth > 0,
        0 <= j < d.subdirs@.len(),
        !excluded_name(d.subdirs@[j].name@, excl),
        scan_tree(d.subdirs@[j], excl, (depth - 1) as nat).0.contains(q),
    ensures
        scan_tree(d, excl, depth).0.contains(seq![d.subdirs@[j].name@] + q),
{
    let subs = d.subdirs@;
    let s = subs[j];
    let p = scan_subs(subs, j, excl, depth);
    let c = scan_tree(s, excl, (depth - 1) as nat);
    let mapped = c.0.map_values(|qq: Seq<Seq<char>>| seq![s.name@] + qq);
    let k = choose|k: int| 0 <= k < c.0.len() && c.0[k] == q;
    assert(mapped[k] == seq![s.name@] + q);
    assert(scan_subs(subs, j + 1, excl, depth).0[p.0.len() + k] == seq![s.name@] + q);
    assert(scan_subs(subs, j + 1, excl, depth).0.contains(seq![s.name@] + q));
    lemma_scan_subs_mono(subs, j + 1, subs.len() as int, excl, depth, seq![s.name@] + q);
    let full = scan_subs(subs, subs.len() as int, excl, depth);
    let m = choose|m: int| 0 <= m < full.0.len() && full.0[m] == seq![s.name@] + q;
    assert(scan_tree(d, excl, depth).0[m + 1] == seq![s.name@] + q);
}

/// One cleaning step only shrinks what the scanner reports.
proof fn lemma_clean_shrinks_scan(
    t: DirTree,
    p2: Seq<Seq<char>>,
    c2: CommandType,
    r: DirTree,
    excl: Seq<Seq<char>>,
    depth: nat,
    q: Seq<Seq<char>>,
)
    requires
        clean_rel(t, p2, c2, r),
        scan_tree(r, excl, depth).0.contains(q),
    ensures
        scan_tree(t, excl, depth).0.contains(q),
    decreases p2.len(),
{
    if q.len() == 0 {
        lemma_scan_contains_empty(t, excl, depth);
        assert(q =~= Seq::<Seq<char>>::empty());
    } else {
        let k0 = choose|k: int|
            0 <= k < scan_tree(r, excl, depth).0.len() && scan_tree(r, excl, depth).0[k] == q;
        assert(scan_tree(r, excl, depth).0[k0] == q);
        if k0 == 0 {
            assert(q.len() == 0);
        } else {
            assert(scan_subs(r.subdirs@, r.subdirs@.len() as int, excl, depth).0[k0 - 1] == q);
            assert(scan_subs(r.subdirs@, r.subdirs@.len() as int, excl, depth).0.contains(q));
        }
        lemma_scan_subs_member_elim(r.subdirs@, r.subdirs@.len() as int, excl, depth, q);
        let y = choose|y: int|
            0 <= y < r.subdirs@.len() && !excluded_name((#[trigger] r.subdirs@[y]).name@, excl)
                && r.subdirs@[y].name@ == q[0] && scan_tree(
                r.subdirs@[y],
                excl,
                (depth - 1) as nat,
            ).0.contains(q.drop_first());
        if p2.len() == 0 {
            lemma_remove_targets_members(t.subdirs@, t.subdirs@.len() as int, c2);
            let f = remove_targets(t.subdirs@, t.subdirs@.len() as int, c2);
            assert(r.subdirs@[y] == f[y]);
            let y0 = choose|y0: int| 0 <= y0 < t.subdirs@.len() && f[y] == t.subdirs@[y0];
            lemma_scan_member_intro(t, excl, depth, y0, q.drop_first());
            assert(seq![t.subdirs@[y0].name@] + q.drop_first() =~= q);
        } else {
            let ix = find_idx(t.subdirs@, 0, p2[0]);
            if ix < 0 {
                assert(r.subdirs@ == t.subdirs@);
                lemma_scan_member_intro(t, excl, depth, y, q.drop_first());
                assert(seq![t.subdirs@[y].name@] + q.drop_first() =~= q);
            } else {
                lemma_find_idx(t.subdirs@, 0, p2[0]);
                if y == ix {
                    assert(clean_rel(t.subdirs@[ix], p2.drop_first(), c2, r.subdirs@[ix]));
                    lemma_clean_shrinks_scan(
                        t.subdirs@[ix],
                        p2.drop_first(),
                        c2,
                        r.subdirs@[ix],
                        excl,
                        (depth - 1) as nat,
                        q.drop_first(),
                    );
                    assert(r.subdirs@[ix].name == t.subdirs@[ix].name);
                } else {
                    assert(r.subdirs@[y] == t.subdirs@[y]);
                }
                lemma_scan_member_intro(t, excl, depth, y, q.drop_first());
                assert(seq![t.subdirs@[y].name@] + q.drop_first() =~= q);
            }
        }
    }
}

/// Every task a directory yields names a registered ecosystem whose
/// markers the directory holds.
proof fn lemma_dir_tasks_elim(t: DirTree, p: Seq<Seq<char>>, cmds: Seq<Cmd>, j: int, x: int)
    requires
        0 <= x < dir_tasks(t, p, cmds, j).len(),
    ensures
        exists|m: int|
            0 <= m < cmds.len() && (#[trigger] cmds[m]).command_type == dir_tasks(
                t,
                p,
                cmds,
                j,
            )[x].1 && cmd_matches_at(t, p, cmds[m]),
    decreases j,
{
    if j > 0 && cmds.len() >= j {
        let prev = dir_tasks(t, p, cmds, j - 1);
        if x < prev.len() {
            lemma_dir_tasks_elim(t, p, cmds, j - 1, x);
        } else {
            assert(dir_tasks(t, p, cmds, j)[x] == (p, cmds[j - 1].command_type));
        }
    }
}

/// What each planned task is made of: a scanned path, and a registered
/// ecosystem whose markers the directory at that path holds.
proof fn lemma_plan_elim(t: DirTree, paths: Seq<Seq<Seq<char>>>, i: int, cmds: Seq<Cmd>, x: int)
    requires
        0 <= x < plan_paths(t, paths, i, cmds).len(),
    ensures
        paths.contains(plan_paths(t, paths, i, cmds)[x].0),
        exists|m: int|
            0 <= m < cmds.len() && (#[trigger] cmds[m]).command_type == plan_paths(
                t,
                paths,
                i,
                cmds,
            )[x].1 && cmd_matches_at(t, plan_paths(t, paths, i, cmds)[x].0, cmds[m]),
    decreases i,
{
    if i > 0 && paths.len() >= i {
        let prev = plan_paths(t, paths, i - 1, cmds);
        if x < prev.len() {
            lemma_plan_elim(t, paths, i - 1, cmds, x);
        } else {
            lemma_dir_tasks_path(t, paths[i - 1], cmds, cmds.len() as int);
            lemma_dir_tasks_elim(t, paths[i - 1], cmds, cmds.len() as int, x - prev.len());
            assert(plan_paths(t, paths, i, cmds)[x] == dir_tasks(
                t,
                paths[i - 1],
                cmds,
                cmds.len() as int,
            )[x - prev.len()]);
            assert(paths[i - 1] == plan_paths(t, paths, i, cmds)[x].0);
        }
    }
}

/// A matching ecosystem at some scanned path always yields its task.
proof fn lemma_dir_tasks_intro(t: DirTree, p: Seq<Seq<char>>, cmds: Seq<Cmd>, j: int, m: int)
    requires
        0 <= m < j <= cmds.len(),
        cmd_matches_at(t, p, cmds[m]),
    ensures
        dir_tasks(t, p, cmds, j).contains((p, cmds[m].command_type)),
    decreases j,
{
    if m == j - 1 {
        let prev = dir_tasks(t, p, cmds, j - 1);
        assert(dir_tasks(t, p, cmds, j)[prev.len() as int] == (p, cmds[m].command_type));
    } else {
        lemma_dir_tasks_intro(t, p, cmds, j - 1, m);
        let prev = dir_tasks(t, p, cmds, j - 1);
        let k = choose|k: int| 0 <= k < prev.len() && prev[k] == (p, cmds[m].command_type);
        assert(dir_tasks(t, p, cmds, j)[k] == (p, cmds[m].command_type));
    }
}

/// A matching ecosystem at a scanned path always yields a planned task.
proof fn lemma_plan_intro(
    t: DirTree,
    paths: Seq<Seq<Seq<char>>>,
    i: int,
    cmds: Seq<Cmd>,
    y: int,
    m: int,
)
    requires
        0 <= y < i <= paths.len(),
        0 <= m < cmds.len(),
        cmd_matches_at(t, paths[y], cmds[m]),
    ensures
        plan_paths(t, paths, i, cmds).contains((paths[y], cmds[m].command_type)),
    decreases i,
{
    let e = (paths[y], cmds[m].command_type);
    if y == i - 1 {
        lemma_dir_tasks_intro(t, paths[y], cmds, cmds.len() as int, m);
        let d = dir_tasks(t, paths[i - 1], cmds, cmds.len() as int);
        let k = choose|k: int| 0 <= k < d.len() && d[k] == e;
        let prev = plan_paths(t, paths, i - 1, cmds);
        assert(plan_paths(t, paths, i, cmds)[prev.len() + k] == e);
    } else {
        lemma_plan_intro(t, paths, i - 1, cmds, y, m);
        let prev = plan_paths(t, paths, i - 1, cmds);
        let k = choose|k: int| 0 <= k < prev.len() && prev[k] == e;
        assert(plan_paths(t, paths, i, cmds)[k] == e);
    }
}

/// Transport composes.
proof fn lemma_transported_trans(a: DirTree, b: DirTree, c: DirTree, p: Seq<Seq<char>>)
    requires
        transported(a, b, p),
        transported(b, c, p),
    ensures
        transported(a, c, p),
{
    match dir_at(c, p) {
        Some(d2) => match (dir_at(b, p), dir_at(a, p)) {
            (Some(d1), Some(d0)) => {
                assert forall|i: int|
                    0 <= i < d2.subdirs@.len() implies #[trigger] has_sub_name(
                    d0,
                    d2.subdirs@[i].name@,
                ) by {
                    assert(has_sub_name(d1, d2.subdirs@[i].name@));
                    let y = choose|y: int|
                        0 <= y < d1.subdirs@.len() && (#[trigger] d1.subdirs@[y].name@)
                            == d2.subdirs@[i].name@;
                    assert(has_sub_name(d0, d1.subdirs@[y].name@));
                }
            },
            _ => {},
        },
        None => {},
    }
}

/// Every directory that resolves after some prefix of a run resolved in
/// the tree the run started from, with the same files and no new
/// subdirectory names.
proof fn lemma_run_transported(
    t0: DirTree,
    cmds: Seq<Cmd>,
    excl: Seq<Seq<char>>,
    max_depth: nat,
    max_files: nat,
    denied: Seq<bool>,
    outs: Seq<TaskOutcome>,
    tfinal: DirTree,
    steps: Seq<DirTree>,
    k: int,
    p: Seq<Seq<char>>,
)
    requires
        run_rel(t0, cmds, excl, max_depth, max_files, denied, outs, tfinal, steps),
        0 <= k <= outs.len(),
    ensures
        transported(t0, steps[k], p),
        steps[k].name == t0.name,
    decreases k,
{
    let paths = scan_result(t0, excl, max_depth).0;
    let tasks = plan_paths(t0, paths, paths.len() as int, cmds);
    if k == 0 {
        lemma_transported_refl(t0, p);
    } else {
        lemma_run_transported(
            t0,
            cmds,
            excl,
            max_depth,
            max_files,
            denied,
            outs,
            tfinal,
            steps,
            k - 1,
            p,
        );
        assert(run_step_ok(
            t0,
            tasks[k - 1],
            denied_at(denied, k - 1),
            outs[k - 1],
            steps[k - 1],
            steps[k],
            max_depth,
            max_files,
        ));
        if denied_at(denied, k - 1) {
            assert(steps[k] == steps[k - 1]);
        } else {
            lemma_clean_transport(steps[k - 1], tasks[k - 1].0, tasks[k - 1].1, steps[k], p);
            lemma_transported_trans(t0, steps[k - 1], steps[k], p);
        }
    }
}

/// Everything the scanner reports after some prefix of a run, it already
/// reported on the tree the run started from.
proof fn lemma_run_scan_back(
    t0: DirTree,
    cmds: Seq<Cmd>,
    excl: Seq<Seq<char>>,
    max_depth: nat,
    max_files: nat,
    denied: Seq<bool>,
    outs: Seq<TaskOutcome>,
    tfinal: DirTree,
    steps: Seq<DirTree>,
    k: int,
    q: Seq<Seq<char>>,
)
    requires
        run_rel(t0, cmds, excl, max_depth, max_files, denied, outs, tfinal, steps),
        0 <= k <= outs.len(),
        scan_result(steps[k], excl, max_depth).0.contains(q),
    ensures
        scan_result(t0, excl, max_depth).0.contains(q),
    decreases k,
{
    let paths = scan_result(t0, excl, max_depth).0;
    let tasks = plan_paths(t0, paths, paths.len() as int, cmds);
    if k > 0 {
        assert(run_step_ok(
            t0,
            tasks[k - 1],
            denied_at(denied, k - 1),
            outs[k - 1],
            steps[k - 1],
            steps[k],
            max_depth,
            max_files,
        ));
        if denied_at(denied, k - 1) {
            assert(steps[k] == steps[k - 1]);
        } else {
            assert(steps[k].name == steps[k - 1].name);
            if !excluded_name(steps[k].name@, excl) {
                lemma_clean_shrinks_scan(
                    steps[k - 1],
                    tasks[k - 1].0,
                    tasks[k - 1].1,
                    steps[k],
                    excl,
                    max_depth,
                    q,
                );
            }
        }
        lemma_run_scan_back(
            t0,
            cmds,
            excl,
            max_depth,
            max_files,
            denied,
            outs,
            tfinal,
            steps,
            k - 1,
            q,
        );
    }
}

/// A spot a run's own task has cleaned stays clean to the end of the run.
proof fn lemma_run_stays_clean(
    t0: DirTree,
    cmds: Seq<Cmd>,
    excl: Seq<Seq<char>>,
    max_depth: nat,
    max_files: nat,
    denied: Seq<bool>,
    outs: Seq<TaskOutcome>,
    tfinal: DirTree,
    steps: Seq<DirTree>,
    k: int,
    l: int,
    p: Seq<Seq<char>>,
    c: CommandType,
)
    requires
        run_rel(t0, cmds, excl, max_depth, max_files, denied, outs, tfinal, steps),
        0 <= k <= l <= outs.len(),
        no_targets_at(steps[k], p, c),
    ensures
        no_targets_at(steps[l], p, c),
    decreases l - k,
{
    let paths = scan_result(t0, excl, max_depth).0;
    let tasks = plan_paths(t0, paths, paths.len() as int, cmds);
    if k < l {
        assert(run_step_ok(
            t0,
            tasks[k],
            denied_at(denied, k),
            outs[k],
            steps[k],
            steps[k + 1],
            max_depth,
            max_files,
        ));
        if denied_at(denied, k) {
            assert(steps[k + 1] == steps[k]);
        } else {
            lemma_clean_preserves_clean(steps[k], tasks[k].0, tasks[k].1, steps[k + 1], p, c);
        }
        lemma_run_stays_clean(
            t0,
            cmds,
            excl,
            max_depth,
            max_files,
            denied,
            outs,
            tfinal,
            steps,
            k + 1,
            l,
            p,
            c,
        );
    }
}

/// A tree with nothing left to clean: every directory a planned task
/// points at already holds none of its ecosystem's cache subdirectories.
pub open spec fn fully_clean(t: DirTree, cmds: Seq<Cmd>, excl: Seq<Seq<char>>, depth: nat) -> bool {
    let paths = scan_result(t, excl, depth).0;
    let tasks = plan_paths(t, paths, paths.len() as int, cmds);
    forall|i: int| 0 <= i < tasks.len() ==> no_targets_at(t, (#[trigger] tasks[i]).0, tasks[i].1)
}

/// A run that suffers no failures leaves a tree with nothing to clean:
/// every directory a task planned on the final tree points at already
/// holds none of its ecosystem's cache subdirectories.
pub proof fn lemma_run_establishes_clean(
    t0: DirTree,
    cmds: Seq<Cmd>,
    excl: Seq<Seq<char>>,
    max_depth: nat,
    max_files: nat,
    denied: Seq<bool>,
    outs: Seq<TaskOutcome>,
    tfinal: DirTree,
    steps: Seq<DirTree>,
)
    requires
        run_rel(t0, cmds, excl, max_depth, max_files, denied, outs, tfinal, steps),
        forall|i: int| !denied_at(denied, i),
    ensures
        fully_clean(tfinal, cmds, excl, max_depth),
{
    let paths0 = scan_result(t0, excl, max_depth).0;
    let tasks0 = plan_paths(t0, paths0, paths0.len() as int, cmds);
    let paths_f = scan_result(tfinal, excl, max_depth).0;
    let tasks_f = plan_paths(tfinal, paths_f, paths_f.len() as int, cmds);
    let n = outs.len() as int;
    assert forall|m: int|
        0 <= m < tasks_f.len() implies no_targets_at(
        tfinal,
        (#[trigger] tasks_f[m]).0,
        tasks_f[m].1,
    ) by {
        lemma_plan_elim(tfinal, paths_f, paths_f.len() as int, cmds, m);
        let p = tasks_f[m].0;
        let c = tasks_f[m].1;
        let mc = choose|mc: int|
            0 <= mc < cmds.len() && (#[trigger] cmds[mc]).command_type == c && cmd_matches_at(
                tfinal,
                p,
                cmds[mc],
            );
        assert(tfinal == steps[n]);
        lemma_run_scan_back(
            t0,
            cmds,
            excl,
            max_depth,
            max_files,
            denied,
            outs,
            tfinal,
            steps,
            n,
            p,
        );
        lemma_run_transported(
            t0,
            cmds,
            excl,
            max_depth,
            max_files,
            denied,
            outs,
            tfinal,
            steps,
            n,
            p,
        );
        assert(cmd_matches_at(t0, p, cmds[mc])) by {
            match (dir_at(tfinal, p), dir_at(t0, p)) {
                (Some(df), Some(d0)) => {
                    assert(df.files == d0.files);
                },
                _ => {},
            }
        }
        let y0 = choose|y0: int| 0 <= y0 < paths0.len() && paths0[y0] == p;
        lemma_plan_intro(t0, paths0, paths0.len() as int, cmds, y0, mc);
        let k = choose|k: int| 0 <= k < tasks0.len() && tasks0[k] == (p, c);
        assert(run_step_ok(
            t0,
            tasks0[k],
            denied_at(denied, k),
            outs[k],
            steps[k],
            steps[k + 1],
            max_depth,
            max_files,
        ));
        assert(!denied_at(denied, k));
        lemma_clean_establishes_clean(steps[k], p, c, steps[k + 1]);
        lemma_run_stays_clean(
            t0,
            cmds,
            excl,
            max_depth,
            max_files,
            denied,
            outs,
            tfinal,
            steps,
            k + 1,
            n,
            p,
            c,
        );
    }
}

/// Idempotence of the orchestration, end to end: after one run with no
/// failures, a second run over the tree the first one left frees zero
/// bytes — not necessarily zero tasks — and leaves the tree observably as
/// it was.
pub proof fn lemma_second_run_frees_nothing(
    t0: DirTree,
    cmds: Seq<Cmd>,
    excl: Seq<Seq<char>>,
    max_depth: nat,
    max_files: nat,
    denied1: Seq<bool>,
    outs1: Seq<TaskOutcome>,
    t1: DirTree,
    steps1: Seq<DirTree>,
    denied2: Seq<bool>,
    outs2: Seq<TaskOutcome>,
    t2: DirTree,
    steps2: Seq<DirTree>,
)
    requires
        run_rel(t0, cmds, excl, max_depth, max_files, denied1, outs1, t1, steps1),
        forall|i: int| !denied_at(denied1, i),
        run_rel(t1, cmds, excl, max_depth, max_files, denied2, outs2, t2, steps2),
    ensures
        forall|i: int| 0 <= i < outs2.len() ==> (#[trigger] outs2[i]).bytes_freed == 0,
        sum_freed(outs2, outs2.len() as int) == 0,
        similar_tree(t2, t1),
{
    lemma_run_establishes_clean(
        t0,
        cmds,
        excl,
        max_depth,
        max_files,
        denied1,
        outs1,
        t1,
        steps1,
    );
    lemma_run_on_clean_frees_nothing(
        t1,
        cmds,
        excl,
        max_depth,
        max_files,
        denied2,
        outs2,
        t2,
        steps2,
    );
}

proof fn lemma_run_on_clean_steps(
    t0: DirTree,
    cmds: Seq<Cmd>,
    excl: Seq<Seq<char>>,
    max_depth: nat,
    max_files: nat,
    denied: Seq<bool>,
    outs: Seq<TaskOutcome>,
    tfinal: DirTree,
    steps: Seq<DirTree>,
    k: int,
)
    requires
        fully_clean(t0, cmds, excl, max_depth),
        run_rel(t0, cmds, excl, max_depth, max_files, denied, outs, tfinal, steps),
        0 <= k <= outs.len(),
    ensures
        similar_tree(steps[k], t0),
    decreases k,
{
    let paths = scan_result(t0, excl, max_depth).0;
    let tasks = plan_paths(t0, paths, paths.len() as int, cmds);
    if k == 0 {
        lemma_similar_refl(t0);
    } else {
        lemma_run_on_clean_steps(
            t0,
            cmds,
            excl,
            max_depth,
            max_files,
            denied,
            outs,
            tfinal,
            steps,
            k - 1,
        );
        assert(run_step_ok(
            t0,
            tasks[k - 1],
            denied_at(denied, k - 1),
            outs[k - 1],
            steps[k - 1],
            steps[k],
            max_depth,
            max_files,
        ));
        if denied_at(denied, k - 1) {
            assert(steps[k] == steps[k - 1]);
        } else {
            assert(no_targets_at(t0, tasks[k - 1].0, tasks[k - 1].1));
            lemma_similar_no_targets(steps[k - 1], t0, tasks[k - 1].0, tasks[k - 1].1);
            lemma_clean_clean_noop(steps[k - 1], tasks[k - 1].0, tasks[k - 1].1, steps[k]);
            lemma_similar_trans(steps[k], steps[k - 1], t0);
        }
    }
}

proof fn lemma_sum_freed_zero(outs: Seq<TaskOutcome>, j: int)
    requires
        j <= outs.len(),
        forall|i: int| 0 <= i < j ==> (#[trigger] outs[i]).bytes_freed == 0,
    ensures
        sum_freed(outs, j) == 0,
    decreases j,
{
    if j > 0 {
        lemma_sum_freed_zero(outs, j - 1);
    }
}

/// Idempotence of the orchestration: a run over a tree with nothing left
/// to clean frees zero bytes — every task's directory measures after the
/// task exactly as it did before the run — and leaves a tree observably
/// equal to the one it started from.  In particular a second run over the
/// tree a first run cleaned, once that tree is fully clean, reports a
/// total of zero bytes freed, though the same tasks run again.
pub proof fn lemma_run_on_clean_frees_nothing(
    t0: DirTree,
    cmds: Seq<Cmd>,
    excl: Seq<Seq<char>>,
    max_depth: nat,
    max_files: nat,
    denied: Seq<bool>,
    outs: Seq<TaskOutcome>,
    tfinal: DirTree,
    steps: Seq<DirTree>,
)
    requires
        fully_clean(t0, cmds, excl, max_depth),
        run_rel(t0, cmds, excl, max_depth, max_files, denied, outs, tfinal, steps),
    ensures
        forall|i: int| 0 <= i < outs.len() ==> (#[trigger] outs[i]).bytes_freed == 0,
        sum_freed(outs, outs.len() as int) == 0,
        similar_tree(tfinal, t0),
{
    let paths = scan_result(t0, excl, max_depth).0;
    let tasks = plan_paths(t0, paths, paths.len() as int, cmds);
    assert forall|i: int| 0 <= i < outs.len() implies (#[trigger] outs[i]).bytes_freed == 0 by {
        assert(run_step_ok(
            t0,
            tasks[i],
            denied_at(denied, i),
            outs[i],
            steps[i],
            steps[i + 1],
            max_depth,
            max_files,
        ));
        if !denied_at(denied, i) {
            lemma_run_on_clean_steps(
                t0,
                cmds,
                excl,
                max_depth,
                max_files,
                denied,
                outs,
                tfinal,
                steps,
                i + 1,
            );
            lemma_similar_size_at(steps[i + 1], t0, tasks[i].0, max_depth, max_files);
        }
    }
    lemma_sum_freed_zero(outs, outs.len() as int);
    lemma_run_on_clean_steps(
        t0,
        cmds,
        excl,
        max_depth,
        max_files,
        denied,
        outs,
        tfinal,
        steps,
        outs.len() as int,
    );
}

/// Running a cleanup over an already-cleaned directory frees nothing: the
/// directory measures exactly as it did after the first cleaning, whatever
/// ceilings bound the measurement.
pub proof fn lemma_second_clean_frees_nothing(
    t: DirTree,
    path: Seq<Seq<char>>,
    c: CommandType,
    r1: DirTree,
    r2: DirTree,
    max_depth: nat,
    max_files: nat,
)
    requires
        clean_rel(t, path, c, r1),
        clean_rel(r1, path, c, r2),
    ensures
        size_at(r2, path, max_depth, max_files) == size_at(r1, path, max_depth, max_files),
{
    lemma_clean_twice_noop(t, path, c, r1, r2);
    lemma_similar_dir_at(r2, r1, path);
    match (dir_at(r2, path), dir_at(r1, path)) {
        (Some(x), Some(y)) => {
            lemma_similar_meas(x, y, max_depth, max_files);
        },
        _ => {},
    }
}

} // verus!
