use rs_clean::cmd::{Cmd, CommandType};
use rs_clean::config::Config;
use rs_clean::constant::{
    get_cmd_map, DEFAULT_MAX_DIRECTORY_DEPTH, DEFAULT_MAX_FILES_PER_PROJECT,
};
use rs_clean::utils::{validate_exclude_dir_name, validate_path_syntax};

fn markers_of(map: &Vec<Cmd>, ct: CommandType) -> Option<Vec<&'static str>> {
    map.iter().find(|c| c.command_type == ct).map(|c| c.related_files.clone())
}

#[test]
fn test_cmd_creation() {
    let cmd = Cmd::new(CommandType::Cargo, vec!["Cargo.toml"]);
    assert_eq!(cmd.command_type, CommandType::Cargo);
    assert_eq!(cmd.related_files, vec!["Cargo.toml"]);
}

#[test]
fn test_validate_max_directory_depth() {
    let mut config = Config::default();
    config.max_directory_depth = 0;
    assert!(config.validate().is_err());
    config.max_directory_depth = 1;
    assert!(config.validate().is_ok());
}

#[test]
fn test_validate_max_files_per_project() {
    let mut config = Config::default();
    config.max_files_per_project = 0;
    assert!(config.validate().is_err());
    config.max_files_per_project = 1;
    assert!(config.validate().is_ok());
}

#[test]
fn test_default_constants() {
    assert_eq!(DEFAULT_MAX_DIRECTORY_DEPTH, 5);
    assert_eq!(DEFAULT_MAX_FILES_PER_PROJECT, 10000);
}

#[test]
fn test_get_cmd_map() {
    let map = get_cmd_map();

    assert_eq!(markers_of(&map, CommandType::Cargo), Some(vec!["Cargo.toml"]));

    assert_eq!(markers_of(&map, CommandType::Go), Some(vec!["go.mod"]));

    assert_eq!(
        markers_of(&map, CommandType::Gradle),
        Some(vec!["build.gradle", "build.gradle.kts"])
    );

    assert_eq!(markers_of(&map, CommandType::NodeJs), Some(vec!["package.json"]));

    assert_eq!(markers_of(&map, CommandType::Maven), Some(vec!["pom.xml"]));

    assert_eq!(map.len(), 7);
}

#[test]
fn test_validate_and_sanitize_path_reject_traversal() {
    assert!(validate_path_syntax("../etc/passwd").is_err());
    assert!(validate_path_syntax("../../etc").is_err());
    assert!(validate_path_syntax("../../../usr/bin").is_err());
    assert!(validate_path_syntax("file/../etc/passwd").is_err());
    assert!(validate_path_syntax("dir/../../etc").is_err());
}

#[test]
fn test_validate_and_sanitize_path_reject_home_directory() {
    assert!(validate_path_syntax("~/etc/passwd").is_err());
    assert!(validate_path_syntax("~/").is_err());
    assert!(validate_path_syntax("~/Documents").is_err());
}

#[test]
fn test_validate_and_sanitize_path_reject_system_directories() {
    assert!(validate_path_syntax("/etc/passwd").is_err());
    assert!(validate_path_syntax("/usr/bin").is_err());
    assert!(validate_path_syntax("/bin/sh").is_err());
    assert!(validate_path_syntax("/etc/").is_err());

    assert!(validate_path_syntax("C:\\Windows\\System32").is_err());
    assert!(validate_path_syntax("C:/Windows/System32").is_err());
    assert!(validate_path_syntax("C:\\Program Files").is_err());

    assert!(validate_path_syntax("/Applications").is_err());
    assert!(validate_path_syntax("/System/Library").is_err());
}

#[test]
fn test_validate_and_sanitize_path_reject_windows_traversal() {
    assert!(validate_path_syntax("..\\..\\Windows").is_err());
    assert!(validate_path_syntax("file\\..\\etc").is_err());
    assert!(validate_path_syntax("dir\\..\\..\\etc").is_err());
}

#[test]
fn test_validate_and_sanitize_path_empty_path() {
    assert!(validate_path_syntax("").is_err());
}

#[test]
fn test_validate_exclude_dir_name_valid() {
    assert!(validate_exclude_dir_name("node_modules").is_ok());
    assert!(validate_exclude_dir_name("target").is_ok());
    assert!(validate_exclude_dir_name("build").is_ok());
    assert!(validate_exclude_dir_name("dist").is_ok());
    assert!(validate_exclude_dir_name("vendor").is_ok());
    assert!(validate_exclude_dir_name("custom_dir").is_ok());
}

#[test]
fn test_validate_exclude_dir_name_invalid() {
    assert!(validate_exclude_dir_name("").is_err());
    assert!(validate_exclude_dir_name(".").is_err());
    assert!(validate_exclude_dir_name("..").is_err());
    assert!(validate_exclude_dir_name("../malicious").is_err());
    assert!(validate_exclude_dir_name("../../etc").is_err());
    assert!(validate_exclude_dir_name("dir/../etc").is_err());
    assert!(validate_exclude_dir_name("path/with/slashes").is_err());
    assert!(validate_exclude_dir_name("path\\with\\backslashes").is_err());
}

#[test]
fn test_validate_exclude_dir_name_reserved_names() {
    assert!(validate_exclude_dir_name("con").is_err());
    assert!(validate_exclude_dir_name("prn").is_err());
    assert!(validate_exclude_dir_name("aux").is_err());
    assert!(validate_exclude_dir_name("nul").is_err());
    assert!(validate_exclude_dir_name("com1").is_err());
    assert!(validate_exclude_dir_name("lpt1").is_err());
}

#[test]
fn test_validate_exclude_dir_name_too_long() {
    let long_name = "a".repeat(256);
    assert!(validate_exclude_dir_name(&long_name).is_err());

    let max_name = "a".repeat(255);
    assert!(validate_exclude_dir_name(&max_name).is_ok());
}
