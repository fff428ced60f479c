//! In-memory snapshot of a directory tree, and the bounded size
//! accountant that runs over it.
//!
//! The cleanup engine works on a snapshot: a tree of directories, each with
//! its regular files (name and size) and its subdirectories, in the order
//! the snapshotter delivered them.  Symbolic links and unreadable entries
//! are expected to have been left out of the snapshot by whoever built it.

use vstd::prelude::*;
use vstd::string::StrSliceExecFns;

verus! {

/// One regular file: its name and its size in bytes.
pub struct FileNode {
    pub name: String,
    pub size: u64,
}

/// One directory: its name, its regular files, and its subdirectories.
pub struct DirTree {
    pub name: String,
    pub files: Vec<FileNode>,
    pub subdirs: Vec<DirTree>,
}

/// Ceilings that bound every traversal: how deep below the root a walk may
/// descend, and how many files one size computation may visit.
#[derive(Clone, Copy)]
pub struct ScanLimits {
    pub max_depth: usize,
    pub max_files: usize,
}

/// The outcome of a bounded size computation.  When `exact` is false some
/// ceiling interfered and `bytes` is only a lower bound on the true total.
#[derive(Clone, Copy)]
pub struct SizeResult {
    pub bytes: u64,
    pub exact: bool,
}

/// The views of a sequence of names.
pub open spec fn views_of(v: Seq<String>) -> Seq<Seq<char>> {
    v.map_values(|s: String| s@)
}

/// The views of a sequence of paths.
pub open spec fn paths_view(v: Seq<Vec<String>>) -> Seq<Seq<Seq<char>>> {
    v.map_values(|p: Vec<String>| views_of(p@))
}

/// A directory name the scanner prunes: it starts with a dot, or it is in
/// the exclusion set.
pub open spec fn excluded_name(n: Seq<char>, excl: Seq<Seq<char>>) -> bool {
    (n.len() > 0 && n[0] == '.') || excl.contains(n)
}

/// The index of the first subdirectory named `n`, searching from index
/// `i`; negative when there is none.
pub open spec fn find_idx(subs: Seq<DirTree>, i: int, n: Seq<char>) -> int
    decreases subs.len() - i,
{
    if i < 0 || i >= subs.len() {
        -1
    } else if subs[i].name@ == n {
        i
    } else {
        find_idx(subs, i + 1, n)
    }
}

/// Where `find_idx` lands: at the first match at or after `i`, or negative
/// when no subdirectory from `i` on is named `n`.
pub proof fn lemma_find_idx(subs: Seq<DirTree>, i: int, n: Seq<char>)
    requires
        0 <= i <= subs.len(),
    ensures
        ({
            let ix = find_idx(subs, i, n);
            &&& ix == -1 || (i <= ix < subs.len() && subs[ix].name@ == n)
            &&& ix == -1 ==> forall|t: int| i <= t < subs.len() ==> (#[trigger] subs[t].name@) != n
            &&& ix >= 0 ==> forall|t: int| i <= t < ix ==> (#[trigger] subs[t].name@) != n
        }),
    decreases subs.len() - i,
{
    if i < subs.len() && subs[i].name@ != n {
        lemma_find_idx(subs, i + 1, n);
    }
}

/// Resolves a relative path (a sequence of directory names) below `d`.
/// Each segment names the first subdirectory that carries it.
pub open spec fn dir_at(d: DirTree, path: Seq<Seq<char>>) -> Option<DirTree>
    decreases path.len(),
{
    if path.len() == 0 {
        Some(d)
    } else {
        let ix = find_idx(d.subdirs@, 0, path[0]);
        if ix < 0 {
            None
        } else {
            dir_at(d.subdirs@[ix], path.drop_first())
        }
    }
}

/// What the scanner reports below one directory, the directory itself
/// included as the empty relative path: every reachable directory that is
/// not pruned by the exclusion rules nor by the depth ceiling, and whether
/// the depth ceiling pruned anything.
pub open spec fn scan_tree(d: DirTree, excl: Seq<Seq<char>>, depth: nat) -> (
    Seq<Seq<Seq<char>>>,
    bool,
)
    decreases d, 1int, 0int,
{
    let s = scan_subs(d.subdirs@, d.subdirs@.len() as int, excl, depth);
    (seq![Seq::<Seq<char>>::empty()] + s.0, s.1)
}

/// The scan of the first `j` subdirectories, at the given remaining depth.
pub open spec fn scan_subs(subs: Seq<DirTree>, j: int, excl: Seq<Seq<char>>, depth: nat) -> (
    Seq<Seq<Seq<char>>>,
    bool,
)
    decreases subs, 0int, j,
{
    if j <= 0 || subs.len() < j {
        (Seq::empty(), false)
    } else {
        let p = scan_subs(subs, j - 1, excl, depth);
        let s = subs[j - 1];
        if excluded_name(s.name@, excl) {
            p
        } else if depth == 0 {
            (p.0, true)
        } else {
            let c = scan_tree(s, excl, (depth - 1) as nat);
            (p.0 + c.0.map_values(|q: Seq<Seq<char>>| seq![s.name@] + q), p.1 || c.1)
        }
    }
}

/// What a whole scan reports: nothing when the root itself is excluded,
/// and otherwise the scan below the root.
pub open spec fn scan_result(root: DirTree, excl: Seq<Seq<char>>, depth: nat) -> (
    Seq<Seq<Seq<char>>>,
    bool,
) {
    if excluded_name(root.name@, excl) {
        (Seq::empty(), false)
    } else {
        scan_tree(root, excl, depth)
    }
}

/// The true byte total of the first `j` files.
pub open spec fn files_total(files: Seq<FileNode>, j: int) -> int
    decreases j,
{
    if j <= 0 || files.len() < j {
        0
    } else {
        files_total(files, j - 1) + files[j - 1].size
    }
}

/// The true byte total of a whole directory, no ceilings applied.
pub open spec fn tree_size(d: DirTree) -> int
    decreases d, 1int, 0int,
{
    files_total(d.files@, d.files@.len() as int) + subs_total(d.subdirs@, d.subdirs@.len() as int)
}

/// The true byte total of the first `j` subdirectories.
pub open spec fn subs_total(subs: Seq<DirTree>, j: int) -> int
    decreases subs, 0int, j,
{
    if j <= 0 || subs.len() < j {
        0
    } else {
        subs_total(subs, j - 1) + tree_size(subs[j - 1])
    }
}

/// Clamps a mathematical byte total into a `u64`.
pub open spec fn sat64(x: int) -> u64 {
    if x > u64::MAX { u64::MAX } else { x as u64 }
}

/// Measuring the first `j` files of a directory under a file budget:
/// yields the byte total, the budget left, and whether the budget denied a
/// file (the walk then stops and the total is a lower bound).
pub open spec fn meas_files(files: Seq<FileNode>, j: int, budget: nat) -> (int, nat, bool)
    decreases j,
{
    if j <= 0 {
        (0, budget, false)
    } else {
        let p = meas_files(files, j - 1, budget);
        if p.2 {
            p
        } else if p.1 == 0 {
            (p.0, 0nat, true)
        } else {
            (p.0 + files[j - 1].size, (p.1 - 1) as nat, false)
        }
    }
}

/// Measuring one whole directory: its files first, then its subdirectories,
/// each one level deeper.  The fourth component records whether the depth
/// ceiling pruned any subdirectory.
pub open spec fn meas_dir(d: DirTree, depth: nat, budget: nat) -> (int, nat, bool, bool)
    decreases d, 1int, 0int,
{
    let f = meas_files(d.files@, d.files@.len() as int, budget);
    if f.2 {
        (f.0, f.1, true, false)
    } else {
        let s = meas_subs(d.subdirs@, d.subdirs@.len() as int, depth, f.1);
        (f.0 + s.0, s.1, s.2, s.3)
    }
}

/// Measuring the first `j` subdirectories at a given remaining depth.
pub open spec fn meas_subs(subs: Seq<DirTree>, j: int, depth: nat, budget: nat) -> (
    int,
    nat,
    bool,
    bool,
)
    decreases subs, 0int, j,
{
    if j <= 0 || subs.len() < j {
        (0, budget, false, false)
    } else {
        let p = meas_subs(subs, j - 1, depth, budget);
        if p.2 {
            p
        } else if depth == 0 {
            (p.0, p.1, false, true)
        } else {
            let d = meas_dir(subs[j - 1], (depth - 1) as nat, p.1);
            (p.0 + d.0, d.1, d.2, p.3 || d.3)
        }
    }
}

/// Once the file budget has denied a file, measuring further files changes
/// nothing.
proof fn lemma_files_hit_absorbs(files: Seq<FileNode>, i: int, j: int, budget: nat)
    requires
        0 <= i <= j,
        meas_files(files, i, budget).2,
    ensures
        meas_files(files, j, budget) == meas_files(files, i, budget),
    decreases j - i,
{
    if i < j {
        lemma_files_hit_absorbs(files, i, j - 1, budget);
    }
}

/// Once the file budget has denied a file, measuring further
/// subdirectories changes nothing.
proof fn lemma_subs_hit_absorbs(subs: Seq<DirTree>, i: int, j: int, depth: nat, budget: nat)
    requires
        0 <= i <= j <= subs.len(),
        meas_subs(subs, i, depth, budget).2,
    ensures
        meas_subs(subs, j, depth, budget) == meas_subs(subs, i, depth, budget),
    decreases j - i,
{
    if i < j {
        lemma_subs_hit_absorbs(subs, i, j - 1, depth, budget);
    }
}

/// File totals never go negative.
proof fn lemma_meas_files_nonneg(files: Seq<FileNode>, j: int, budget: nat)
    ensures
        meas_files(files, j, budget).0 >= 0,
    decreases j,
{
    if j > 0 {
        lemma_meas_files_nonneg(files, j - 1, budget);
    }
}

/// Directory totals never go negative.
proof fn lemma_meas_dir_nonneg(d: DirTree, depth: nat, budget: nat)
    ensures
        meas_dir(d, depth, budget).0 >= 0,
    decreases d, 1int, 0int,
{
    lemma_meas_files_nonneg(d.files@, d.files@.len() as int, budget);
    let f = meas_files(d.files@, d.files@.len() as int, budget);
    if !f.2 {
        lemma_meas_subs_nonneg(d.subdirs@, d.subdirs@.len() as int, depth, f.1);
    }
}

/// Subdirectory totals never go negative.
proof fn lemma_meas_subs_nonneg(subs: Seq<DirTree>, j: int, depth: nat, budget: nat)
    ensures
        meas_subs(subs, j, depth, budget).0 >= 0,
    decreases subs, 0int, j,
{
    if j > 0 && j <= subs.len() {
        lemma_meas_subs_nonneg(subs, j - 1, depth, budget);
        let p = meas_subs(subs, j - 1, depth, budget);
        if !p.2 && depth != 0 {
            lemma_meas_dir_nonneg(subs[j - 1], (depth - 1) as nat, p.1);
        }
    }
}

/// Adds byte counts, stopping at the largest representable total.
pub fn sat_add(a: u64, b: u64) -> (r: u64)
    ensures
        r == sat64(a + b),
{
    if a > u64::MAX - b {
        u64::MAX
    } else {
        a + b
    }
}

/// Clamped addition agrees with clamping the mathematical sum.
pub proof fn lemma_sat_compose(a: int, b: int)
    requires
        a >= 0,
        b >= 0,
    ensures
        sat64(sat64(a) + b) == sat64(a + b),
        sat64(sat64(a) + sat64(b)) == sat64(a + b),
{
}

/// Measures one directory under the given remaining depth and file budget.
/// Returns the clamped byte total, the file budget left, whether the file
/// budget denied a file, and whether the depth ceiling pruned a
/// subdirectory.
fn meas_dir_x(d: &DirTree, depth: usize, budget: usize) -> (r: (u64, usize, bool, bool))
    ensures
        ({
            let m = meas_dir(*d, depth as nat, budget as nat);
            r.0 == sat64(m.0) && r.1 == m.1 && r.2 == m.2 && r.3 == m.3
        }),
    decreases depth, 1int,
{
    let files_len = d.files.len();
    let mut sum: u64 = 0;
    let mut b: usize = budget;
    let mut hit: bool = false;
    let mut i: usize = 0;
    proof {
        lemma_meas_files_nonneg(d.files@, i as int, budget as nat);
    }
    while i < files_len && !hit
        invariant
            i <= files_len,
            files_len == d.files@.len(),
            ({
                let p = meas_files(d.files@, i as int, budget as nat);
                sum == sat64(p.0) && b == p.1 && hit == p.2
            }),
        decreases files_len - i,
    {
        proof {
            lemma_meas_files_nonneg(d.files@, i as int, budget as nat);
            lemma_meas_files_nonneg(d.files@, i + 1, budget as nat);
        }
        if b == 0 {
            hit = true;
            i = i + 1;
        } else {
            let sz = d.files[i].size;
            proof {
                lemma_sat_compose(meas_files(d.files@, i as int, budget as nat).0, sz as int);
            }
            sum = sat_add(sum, sz);
            b = b - 1;
            i = i + 1;
        }
    }
    proof {
        if hit {
            lemma_files_hit_absorbs(d.files@, i as int, files_len as int, budget as nat);
        }
    }
    if hit {
        return (sum, b, true, false);
    }
    let ghost f = meas_files(d.files@, d.files@.len() as int, budget as nat);
    let subs_len = d.subdirs.len();
    let mut cut: bool = false;
    let mut j: usize = 0;
    while j < subs_len && !hit
        invariant
            j <= subs_len,
            subs_len == d.subdirs@.len(),
            f == meas_files(d.files@, d.files@.len() as int, budget as nat),
            !f.2,
            ({
                let s = meas_subs(d.subdirs@, j as int, depth as nat, f.1);
                sum == sat64(f.0 + s.0) && b == s.1 && hit == s.2 && cut == s.3
            }),
        decreases subs_len - j,
    {
        proof {
            lemma_meas_files_nonneg(d.files@, d.files@.len() as int, budget as nat);
            lemma_meas_subs_nonneg(d.subdirs@, j as int, depth as nat, f.1);
        }
        if depth == 0 {
            cut = true;
            j = j + 1;
        } else {
            let sub = meas_dir_x(&d.subdirs[j], depth - 1, b);
            proof {
                lemma_meas_dir_nonneg(d.subdirs@[j as int], (depth - 1) as nat, b as nat);
                let s = meas_subs(d.subdirs@, j as int, depth as nat, f.1);
                let dm = meas_dir(d.subdirs@[j as int], (depth - 1) as nat, s.1);
                lemma_sat_compose(f.0 + s.0, dm.0);
            }
            sum = sat_add(sum, sub.0);
            b = sub.1;
            if sub.2 {
                hit = true;
            }
            if sub.3 {
                cut = true;
            }
            j = j + 1;
        }
    }
    proof {
        if hit {
            lemma_subs_hit_absorbs(d.subdirs@, j as int, subs_len as int, depth as nat, f.1);
        }
    }
    (sum, b, hit, cut)
}

/// Computes the total size in bytes of all regular files reachable under
/// `d`, bounded by the depth and file ceilings in `limits`.  `exact` is
/// true exactly when neither ceiling interfered; otherwise `bytes` is the
/// partial total accumulated before the walk was bounded.
pub fn dir_size(d: &DirTree, limits: &ScanLimits) -> (r: SizeResult)
    ensures
        ({
            let m = meas_dir(*d, limits.max_depth as nat, limits.max_files as nat);
            r.bytes == sat64(m.0) && r.exact == (!m.2 && !m.3)
        }),
{
    let (bytes, _b, hit, cut) = meas_dir_x(d, limits.max_depth, limits.max_files);
    SizeResult { bytes, exact: !hit && !cut }
}

/// What the scanner hands on: the relative paths of the reported
/// directories (the root itself is the empty path), and whether the depth
/// ceiling pruned a branch.
pub struct ScanResult {
    pub dirs: Vec<Vec<String>>,
    pub depth_warning: bool,
}

/// Whether the scanner prunes a directory of this name.
pub fn is_excluded(name: &String, excl: &Vec<String>) -> (r: bool)
    ensures
        r == excluded_name(name@, views_of(excl@)),
{
    if name.as_str().unicode_len() > 0 {
        if name.as_str().get_char(0) == '.' {
            return true;
        }
    }
    let mut i: usize = 0;
    while i < excl.len()
        invariant
            i <= excl@.len(),
            forall|t: int| 0 <= t < i ==> (#[trigger] excl@[t]@) != name@,
        decreases excl@.len() - i,
    {
        if *name == excl[i] {
            proof {
                assert(views_of(excl@)[i as int] == name@);
            }
            return true;
        }
        i = i + 1;
    }
    proof {
        assert forall|t: int| 0 <= t < views_of(excl@).len() implies views_of(excl@)[t]
            != name@ by {
            assert(views_of(excl@)[t] == excl@[t]@);
        }
    }
    false
}

/// Finds the index of the first subdirectory with the given name.
pub fn find_child_idx(d: &DirTree, name: &String) -> (r: Option<usize>)
    ensures
        match r {
            Some(i) => find_idx(d.subdirs@, 0, name@) == i as int,
            None => find_idx(d.subdirs@, 0, name@) == -1,
        },
{
    let n = d.subdirs.len();
    let mut i: usize = 0;
    while i < n
        invariant
            i <= n,
            n == d.subdirs@.len(),
            find_idx(d.subdirs@, 0, name@) == find_idx(d.subdirs@, i as int, name@),
        decreases n - i,
    {
        if d.subdirs[i].name == *name {
            return Some(i);
        }
        i = i + 1;
    }
    None
}

/// Resolves a relative path below `d`, as `dir_at` does.
pub fn lookup<'a>(d: &'a DirTree, path: &Vec<String>) -> (r: Option<&'a DirTree>)
    ensures
        match r {
            Some(x) => dir_at(*d, views_of(path@)) == Some(*x),
            None => dir_at(*d, views_of(path@)) is None,
        },
{
    let mut cur: &'a DirTree = d;
    let plen = path.len();
    let mut k: usize = 0;
    proof {
        assert(views_of(path@).skip(0) =~= views_of(path@));
    }
    while k < plen
        invariant
            k <= plen,
            plen == path@.len(),
            dir_at(*d, views_of(path@)) == dir_at(*cur, views_of(path@).skip(k as int)),
        decreases plen - k,
    {
        let ghost rest = views_of(path@).skip(k as int);
        proof {
            assert(rest.len() > 0);
            assert(rest[0] == path@[k as int]@);
            assert(rest.drop_first() =~= views_of(path@).skip(k as int + 1));
        }
        match find_child_idx(cur, &path[k]) {
            Some(i) => {
                proof {
                    lemma_find_idx(cur.subdirs@, 0, path@[k as int]@);
                }
                cur = &cur.subdirs[i];
            },
            None => {
                return None;
            },
        }
        k = k + 1;
    }
    proof {
        assert(views_of(path@).skip(plen as int) =~= Seq::<Seq<char>>::empty());
    }
    Some(cur)
}

/// Builds the path of a reported subdirectory: the subdirectory's name,
/// then the path below it.
fn prepend_name(prefix: &String, p: &Vec<String>) -> (r: Vec<String>)
    ensures
        views_of(r@) == seq![prefix@] + views_of(p@),
{
    let mut r: Vec<String> = Vec::new();
    r.push(prefix.clone());
    let n = p.len();
    let mut t: usize = 0;
    while t < n
        invariant
            t <= n,
            n == p@.len(),
            r@.len() == t + 1,
            r@[0] == *prefix,
            forall|x: int| 0 <= x < t ==> r@[x + 1] == p@[x],
        decreases n - t,
    {
        r.push(p[t].clone());
        t = t + 1;
    }
    proof {
        assert(views_of(r@) =~~= seq![prefix@] + views_of(p@));
    }
    r
}

/// Scans below one directory.  Returns the reported relative paths (the
/// directory itself first, as the empty path) and the depth-warning flag.
fn scan_tree_x(d: &DirTree, excl: &Vec<String>, depth: usize) -> (r: (Vec<Vec<String>>, bool))
    ensures
        paths_view(r.0@) == scan_tree(*d, views_of(excl@), depth as nat).0,
        r.1 == scan_tree(*d, views_of(excl@), depth as nat).1,
    decreases depth,
{
    let ghost ve = views_of(excl@);
    let mut out: Vec<Vec<String>> = Vec::new();
    out.push(Vec::new());
    proof {
        assert(paths_view(out@) =~~= seq![Seq::<Seq<char>>::empty()] + scan_subs(
            d.subdirs@,
            0,
            ve,
            depth as nat,
        ).0);
    }
    let mut warn = false;
    let n = d.subdirs.len();
    let mut j: usize = 0;
    while j < n
        invariant
            j <= n,
            n == d.subdirs@.len(),
            ve == views_of(excl@),
            paths_view(out@) == seq![Seq::<Seq<char>>::empty()] + scan_subs(
                d.subdirs@,
                j as int,
                ve,
                depth as nat,
            ).0,
            warn == scan_subs(d.subdirs@, j as int, ve, depth as nat).1,
        decreases n - j,
    {
        let s = &d.subdirs[j];
        if !is_excluded(&s.name, excl) {
            if depth == 0 {
                warn = true;
            } else {
                let sub = scan_tree_x(s, excl, depth - 1);
                let sub_paths = sub.0;
                let ghost c = scan_tree(d.subdirs@[j as int], ve, (depth - 1) as nat);
                let ghost nm = d.subdirs@[j as int].name@;
                let ghost base = paths_view(out@);
                let m = sub_paths.len();
                let mut k: usize = 0;
                while k < m
                    invariant
                        k <= m,
                        m == sub_paths@.len(),
                        paths_view(sub_paths@) == c.0,
                        nm == d.subdirs@[j as int].name@,
                        j < n,
                        n == d.subdirs@.len(),
                        paths_view(out@) == base + c.0.subrange(0, k as int).map_values(
                            |q: Seq<Seq<char>>| seq![nm] + q,
                        ),
                    decreases m - k,
                {
                    let np = prepend_name(&d.subdirs[j].name, &sub_paths[k]);
                    let ghost prev = out@;
                    out.push(np);
                    proof {
                        let f = |q: Seq<Seq<char>>| seq![nm] + q;
                        assert(paths_view(sub_paths@)[k as int] == views_of(sub_paths@[k as int]@));
                        assert(views_of(np@) == seq![nm] + c.0[k as int]);
                        assert(out@ == prev.push(np));
                        let lhs = paths_view(out@);
                        let rhs = base + c.0.subrange(0, k + 1).map_values(f);
                        assert(paths_view(sub_paths@).len() == sub_paths@.len());
                        assert(c.0.len() == m);
                        assert(paths_view(out@).len() == out@.len());
                        assert(paths_view(prev).len() == prev.len());
                        assert(c.0.subrange(0, k as int).map_values(f).len() == k);
                        assert(c.0.subrange(0, k + 1).map_values(f).len() == k + 1);
                        assert(lhs.len() == rhs.len());
                        assert forall|t: int| 0 <= t < lhs.len() implies lhs[t] == rhs[t] by {
                            assert(lhs[t] == views_of(out@[t]@));
                            if t < prev.len() {
                                assert(out@[t] == prev[t]);
                                assert(views_of(prev[t]@) == paths_view(prev)[t]);
                                if t >= base.len() {
                                    assert(paths_view(prev)[t] == c.0.subrange(0, k as int).map_values(f)[t - base.len()]);
                                    assert(c.0.subrange(0, k as int)[t - base.len()] == c.0[t - base.len()]);
                                    assert(c.0.subrange(0, k + 1)[t - base.len()] == c.0[t - base.len()]);
                                    assert(rhs[t] == f(c.0.subrange(0, k + 1)[t - base.len()]));
                                }
                            } else {
                                assert(out@[t] == np);
                                assert(rhs[t] == f(c.0.subrange(0, k + 1)[k as int]));
                                assert(c.0.subrange(0, k + 1)[k as int] == c.0[k as int]);
                            }
                        }
                        assert(lhs =~= rhs);
                    }
                    k = k + 1;
                }
                proof {
                    assert(c.0.subrange(0, m as int) =~= c.0);
                    assert(paths_view(out@) =~~= seq![Seq::<Seq<char>>::empty()] + scan_subs(
                        d.subdirs@,
                        j as int + 1,
                        ve,
                        depth as nat,
                    ).0);
                }
                warn = warn || sub.1;
            }
        }
        j = j + 1;
    }
    (out, warn)
}

/// Walks the tree below `root`, pruning excluded and dot-named
/// directories, and descending at most `max_depth` levels.  Reports every
/// directory reached (the root itself as the empty path) and whether the
/// depth ceiling pruned a branch.  A root that is itself excluded yields
/// an empty report.
pub fn scan(root: &DirTree, exclude_dirs: &Vec<String>, max_depth: usize) -> (r: ScanResult)
    ensures
        paths_view(r.dirs@) == scan_result(*root, views_of(exclude_dirs@), max_depth as nat).0,
        r.depth_warning == scan_result(*root, views_of(exclude_dirs@), max_depth as nat).1,
{
    if is_excluded(&root.name, exclude_dirs) {
        proof {
            assert(paths_view(Seq::<Vec<String>>::empty()) =~~= Seq::<Seq<Seq<char>>>::empty());
        }
        return ScanResult { dirs: Vec::new(), depth_warning: false };
    }
    let r = scan_tree_x(root, exclude_dirs, max_depth);
    ScanResult { dirs: r.0, depth_warning: r.1 }
}

} // verus!
