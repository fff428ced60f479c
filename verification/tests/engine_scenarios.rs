use rs_clean::cmd::CommandType;
use rs_clean::constant::get_cmd_map;
use rs_clean::do_clean_all;
use rs_clean::engine::{bytes_freed, plan_tasks, TaskStatus};
use rs_clean::fs_model::{dir_size, scan, DirTree, FileNode, ScanLimits};

fn file(name: &str, size: u64) -> FileNode {
    FileNode { name: name.to_string(), size }
}

fn dir(name: &str, files: Vec<FileNode>, subdirs: Vec<DirTree>) -> DirTree {
    DirTree { name: name.to_string(), files, subdirs }
}

fn generous() -> ScanLimits {
    ScanLimits { max_depth: 50, max_files: 10000 }
}

fn no_excl() -> Vec<String> {
    Vec::new()
}

/// Scenario: one Python project with 100 bytes of cache, one Node project
/// whose node_modules holds 5000 bytes; two tasks are planned, both
/// succeed, and exactly 5100 bytes are freed.
#[test]
fn scenario_two_projects_freed_bytes() {
    let a = dir(
        "a",
        vec![file("requirements.txt", 0)],
        vec![dir("__pycache__", vec![file("mod.pyc", 100)], vec![])],
    );
    let b = dir(
        "b",
        vec![file("package.json", 0)],
        vec![dir("node_modules", vec![file("lib.js", 5000)], vec![])],
    );
    let root = dir("root", vec![], vec![a, b]);
    let cmds = get_cmd_map();
    let report = do_clean_all(root, &cmds, &no_excl(), &generous(), &Vec::new());
    assert_eq!(report.outcomes.len(), 2);
    assert!(report.outcomes.iter().all(|o| matches!(o.status, TaskStatus::Succeeded)));
    assert_eq!(report.cleaned_count, 2);
    assert_eq!(report.total_freed, 5100);
}

/// Scenario: with max depth 1, a project nested three levels down is never
/// discovered, and the pruned branch raises the depth warning.
#[test]
fn scenario_depth_ceiling_prunes_nested_project() {
    let proj = dir("proj", vec![file("Cargo.toml", 10)], vec![]);
    let l2 = dir("l2", vec![], vec![proj]);
    let l1 = dir("l1", vec![], vec![l2]);
    let root = dir("root", vec![], vec![l1]);
    let scan_r = scan(&root, &no_excl(), 1);
    assert!(scan_r.depth_warning);
    let cmds = get_cmd_map();
    let tasks = plan_tasks(&root, &scan_r.dirs, &cmds);
    assert!(tasks.is_empty());
}

/// Running the whole orchestration twice in a row frees nothing the second
/// time, though the same tasks are planned again.
#[test]
fn scenario_second_run_frees_nothing() {
    let b = dir(
        "b",
        vec![file("package.json", 3)],
        vec![
            dir("node_modules", vec![file("lib.js", 4000)], vec![]),
            dir("src", vec![file("main.js", 25)], vec![]),
        ],
    );
    let root = dir("root", vec![], vec![b]);
    let cmds = get_cmd_map();
    let first = do_clean_all(root, &cmds, &no_excl(), &generous(), &Vec::new());
    assert_eq!(first.cleaned_count, 1);
    assert_eq!(first.total_freed, 4000);
    let second = do_clean_all(first.tree, &cmds, &no_excl(), &generous(), &Vec::new());
    assert_eq!(second.cleaned_count, 1);
    assert_eq!(second.total_freed, 0);
}

/// A denied task fails alone: the other task still completes and the
/// aggregate count reflects exactly the successes.
#[test]
fn scenario_partial_failure() {
    let a = dir(
        "a",
        vec![file("requirements.txt", 0)],
        vec![dir("__pycache__", vec![file("mod.pyc", 700)], vec![])],
    );
    let b = dir(
        "b",
        vec![file("package.json", 0)],
        vec![dir("node_modules", vec![file("lib.js", 41)], vec![])],
    );
    let root = dir("root", vec![], vec![a, b]);
    let cmds = get_cmd_map();
    let denied = vec![true, false];
    let report = do_clean_all(root, &cmds, &no_excl(), &generous(), &denied);
    assert_eq!(report.outcomes.len(), 2);
    assert!(matches!(report.outcomes[0].status, TaskStatus::Failed(_)));
    assert!(matches!(report.outcomes[1].status, TaskStatus::Succeeded));
    assert_eq!(report.outcomes[0].bytes_freed, 0);
    assert_eq!(report.outcomes[1].bytes_freed, 41);
    assert_eq!(report.cleaned_count, 1);
    assert_eq!(report.total_freed, 41);
}

/// No task is ever planned inside an excluded or dot-prefixed directory,
/// even when a project sits there.
#[test]
fn scenario_excluded_dirs_yield_no_tasks() {
    let hidden = dir(".git", vec![file("Cargo.toml", 5)], vec![]);
    let vendored = dir(
        "vendor",
        vec![],
        vec![dir("dep", vec![file("Cargo.toml", 5)], vec![])],
    );
    let proj = dir("proj", vec![file("Cargo.toml", 5)], vec![]);
    let root = dir("root", vec![], vec![hidden, vendored, proj]);
    let excl = vec!["vendor".to_string()];
    let scan_r = scan(&root, &excl, 10);
    let cmds = get_cmd_map();
    let tasks = plan_tasks(&root, &scan_r.dirs, &cmds);
    assert_eq!(tasks.len(), 1);
    assert_eq!(tasks[0].path, vec!["proj".to_string()]);
    assert_eq!(tasks[0].command_type, CommandType::Cargo);
}

/// A directory carrying markers of two ecosystems yields one task per
/// ecosystem, undeduplicated.
#[test]
fn scenario_two_ecosystems_one_directory() {
    let p = dir(
        "p",
        vec![file("package.json", 0), file("requirements.txt", 0)],
        vec![],
    );
    let root = dir("root", vec![], vec![p]);
    let cmds = get_cmd_map();
    let scan_r = scan(&root, &no_excl(), 5);
    let tasks = plan_tasks(&root, &scan_r.dirs, &cmds);
    assert_eq!(tasks.len(), 2);
    assert_eq!(tasks[0].command_type, CommandType::NodeJs);
    assert_eq!(tasks[1].command_type, CommandType::Python);
}

/// An external-clean ecosystem deletes nothing of the snapshot itself.
#[test]
fn scenario_external_clean_changes_nothing() {
    let proj = dir(
        "proj",
        vec![file("Cargo.toml", 7)],
        vec![dir("target", vec![file("bin", 900)], vec![])],
    );
    let root = dir("root", vec![], vec![proj]);
    let cmds = get_cmd_map();
    let report = do_clean_all(root, &cmds, &no_excl(), &generous(), &Vec::new());
    assert_eq!(report.outcomes.len(), 1);
    assert!(matches!(report.outcomes[0].status, TaskStatus::Succeeded));
    assert_eq!(report.total_freed, 0);
    let freed_dir = dir_size(&report.tree, &generous());
    assert_eq!(freed_dir.bytes, 907);
}

/// Bytes freed are clamped, never negative.
#[test]
fn bytes_freed_clamps_to_zero() {
    assert_eq!(bytes_freed(10, 4), 6);
    assert_eq!(bytes_freed(4, 10), 0);
    assert_eq!(bytes_freed(7, 7), 0);
}
