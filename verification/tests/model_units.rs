use rs_clean::cmd::{is_clean_target_x, CleanError, CleanStrategy, CommandType};
use rs_clean::config::{Config, ConfigError};
use rs_clean::engine::clean_dir;
use rs_clean::fs_model::{dir_size, lookup, scan, DirTree, FileNode, ScanLimits};
use rs_clean::sched::Semaphore;
use rs_clean::utils::validate_path_syntax;

fn file(name: &str, size: u64) -> FileNode {
    FileNode { name: name.to_string(), size }
}

fn dir(name: &str, files: Vec<FileNode>, subdirs: Vec<DirTree>) -> DirTree {
    DirTree { name: name.to_string(), files, subdirs }
}

#[test]
fn command_names_round_trip() {
    let all = [
        CommandType::Cargo,
        CommandType::Go,
        CommandType::Gradle,
        CommandType::NodeJs,
        CommandType::Flutter,
        CommandType::Python,
        CommandType::Maven,
        CommandType::MavenCmd,
    ];
    for ct in all {
        assert_eq!(CommandType::from_name(ct.as_str()), Some(ct));
    }
    assert_eq!(CommandType::from_name("make"), None);
    assert_eq!(CommandType::as_str(&CommandType::MavenCmd), "mvn.cmd");
}

#[test]
fn strategies_split_as_documented() {
    assert_eq!(CommandType::NodeJs.strategy(), CleanStrategy::DeleteKnownPaths);
    assert_eq!(CommandType::Python.strategy(), CleanStrategy::DeleteKnownPaths);
    assert_eq!(CommandType::Cargo.strategy(), CleanStrategy::RunExternalClean);
    assert_eq!(CommandType::Go.strategy(), CleanStrategy::RunExternalClean);
}

/// The egg-info pattern match is done by the glob crate; a name that merely
/// contains the text without ending in it must not match.
#[test]
fn egg_info_names_match_by_suffix() {
    assert!(is_clean_target_x(CommandType::Python, &"pkg.egg-info".to_string()));
    assert!(is_clean_target_x(CommandType::Python, &".egg-info".to_string()));
    assert!(!is_clean_target_x(CommandType::Python, &"pkg.egg-info.bak".to_string()));
    assert!(!is_clean_target_x(CommandType::Python, &"egg-info".to_string()));
    assert!(!is_clean_target_x(CommandType::NodeJs, &"pkg.egg-info".to_string()));
}

#[test]
fn clean_dir_removes_python_caches() {
    let d = dir(
        "p",
        vec![file("requirements.txt", 1)],
        vec![
            dir("__pycache__", vec![], vec![]),
            dir("src", vec![], vec![]),
            dir("pkg.egg-info", vec![], vec![]),
            dir("venv", vec![], vec![]),
        ],
    );
    let cleaned = clean_dir(d, CommandType::Python);
    let names: Vec<&str> = cleaned.subdirs.iter().map(|s| s.name.as_str()).collect();
    assert_eq!(names, vec!["src"]);
    assert_eq!(cleaned.files.len(), 1);
}

#[test]
fn clean_dir_removes_node_caches_only() {
    let d = dir(
        "p",
        vec![file("package.json", 1)],
        vec![
            dir("node_modules", vec![], vec![]),
            dir("dist", vec![], vec![]),
            dir("lib", vec![], vec![]),
            dir(".next", vec![], vec![]),
        ],
    );
    let cleaned = clean_dir(d, CommandType::NodeJs);
    let names: Vec<&str> = cleaned.subdirs.iter().map(|s| s.name.as_str()).collect();
    assert_eq!(names, vec!["lib"]);
}

#[test]
fn dir_size_exact_when_ceilings_spare() {
    let t = dir(
        "r",
        vec![file("a", 10), file("b", 20)],
        vec![dir("s", vec![file("c", 30)], vec![])],
    );
    let r = dir_size(&t, &ScanLimits { max_depth: 5, max_files: 100 });
    assert_eq!(r.bytes, 60);
    assert!(r.exact);
}

#[test]
fn dir_size_lower_bound_on_file_ceiling() {
    let t = dir("r", vec![file("a", 10), file("b", 20), file("c", 30)], vec![]);
    let r = dir_size(&t, &ScanLimits { max_depth: 5, max_files: 2 });
    assert_eq!(r.bytes, 30);
    assert!(!r.exact);
}

#[test]
fn dir_size_lower_bound_on_depth_ceiling() {
    let deep = dir("r", vec![file("a", 5)], vec![dir("s", vec![file("b", 7)], vec![])]);
    let r = dir_size(&deep, &ScanLimits { max_depth: 0, max_files: 100 });
    assert_eq!(r.bytes, 5);
    assert!(!r.exact);
}

#[test]
fn dir_size_saturates_at_largest_total() {
    let t = dir("r", vec![file("a", u64::MAX), file("b", 9)], vec![]);
    let r = dir_size(&t, &ScanLimits { max_depth: 5, max_files: 100 });
    assert_eq!(r.bytes, u64::MAX);
    assert!(r.exact);
}

#[test]
fn scan_reports_all_unexcluded_dirs() {
    let t = dir(
        "root",
        vec![],
        vec![
            dir("a", vec![], vec![dir("b", vec![], vec![])]),
            dir(".hidden", vec![], vec![]),
        ],
    );
    let r = scan(&t, &Vec::new(), 5);
    assert!(!r.depth_warning);
    let paths: Vec<Vec<String>> = r.dirs.clone();
    assert_eq!(paths.len(), 3);
    assert!(paths.contains(&Vec::new()));
    assert!(paths.contains(&vec!["a".to_string()]));
    assert!(paths.contains(&vec!["a".to_string(), "b".to_string()]));
}

#[test]
fn scan_of_excluded_root_is_empty() {
    let t = dir("node_modules", vec![file("package.json", 1)], vec![]);
    let excl = vec!["node_modules".to_string()];
    let r = scan(&t, &excl, 5);
    assert!(r.dirs.is_empty());
    assert!(!r.depth_warning);
}

#[test]
fn lookup_resolves_paths() {
    let t = dir("root", vec![], vec![dir("a", vec![file("f", 1)], vec![])]);
    let found = lookup(&t, &vec!["a".to_string()]);
    assert!(found.is_some());
    assert_eq!(found.unwrap().files[0].name, "f");
    assert!(lookup(&t, &vec!["zzz".to_string()]).is_none());
}

#[test]
fn semaphore_never_exceeds_capacity() {
    let mut s = Semaphore::new(2);
    assert!(s.try_acquire());
    assert!(s.try_acquire());
    assert!(!s.try_acquire());
    assert!(s.held <= s.capacity);
    s.release();
    assert_eq!(s.held, 1);
    assert!(s.try_acquire());
    assert!(!s.try_acquire());
    assert_eq!(s.held, 2);
}

#[test]
fn config_rejects_bad_exclusion_entry() {
    let mut config = Config::default();
    config.exclude_dir.push("bad/name".to_string());
    let r = config.validate();
    assert!(matches!(r, Err(ConfigError::InvalidConfig(_))));
}

#[test]
fn path_syntax_accepts_ordinary_paths() {
    assert!(validate_path_syntax(".").is_ok());
    assert!(validate_path_syntax("projects/work").is_ok());
    assert!(validate_path_syntax("my-code").is_ok());
}

#[test]
fn clean_error_variants_carry_context() {
    let e = CleanError::CommandExecutionFailed {
        command: "cargo clean".to_string(),
        path: "proj".to_string(),
        reason: "spawn failed".to_string(),
    };
    assert!(matches!(e, CleanError::CommandExecutionFailed { .. }));
    let e2 = CleanError::DirectoryRemovalFailed {
        path: "proj/node_modules".to_string(),
        reason: "permission denied".to_string(),
    };
    assert!(matches!(e2, CleanError::DirectoryRemovalFailed { .. }));
}
