//! Default limits and the static ecosystem registry.

use vstd::prelude::*;
use crate::cmd::{Cmd, CommandType};

verus! {

/// Default ceiling on directory traversal depth.
pub const DEFAULT_MAX_DIRECTORY_DEPTH: usize = 5;

/// Default ceiling on the number of files visited per size computation.
pub const DEFAULT_MAX_FILES_PER_PROJECT: usize = 10000;

/// The marker files of each registered ecosystem, as the registry lists them.
pub open spec fn registry_markers(c: CommandType) -> Seq<Seq<char>> {
    match c {
        CommandType::Cargo => seq!["Cargo.toml"@],
        CommandType::Go => seq!["go.mod"@],
        CommandType::Gradle => seq!["build.gradle"@, "build.gradle.kts"@],
        CommandType::NodeJs => seq!["package.json"@],
        CommandType::Flutter => seq!["pubspec.yaml"@],
        CommandType::Python => seq!["requirements.txt"@, "pyproject.toml"@],
        CommandType::Maven => seq!["pom.xml"@],
        CommandType::MavenCmd => seq!["pom.xml"@],
    }
}

/// The views of the marker names a `Cmd` carries.
pub open spec fn marker_views(files: Seq<&'static str>) -> Seq<Seq<char>> {
    files.map_values(|f: &'static str| f@)
}

/// The registry entry for one ecosystem: its identifier paired with its
/// marker files.
pub open spec fn registry_entry_ok(e: Cmd, c: CommandType) -> bool {
    e.command_type == c && marker_views(e.related_files@) == registry_markers(c)
}

/// The static ecosystem registry: every supported ecosystem except the
/// Windows-only Maven variant, each with its marker files.
pub fn get_cmd_map() -> (r: Vec<Cmd>)
    ensures
        r@.len() == 7,
        registry_entry_ok(r@[0], CommandType::Cargo),
        registry_entry_ok(r@[1], CommandType::Go),
        registry_entry_ok(r@[2], CommandType::Gradle),
        registry_entry_ok(r@[3], CommandType::NodeJs),
        registry_entry_ok(r@[4], CommandType::Flutter),
        registry_entry_ok(r@[5], CommandType::Python),
        registry_entry_ok(r@[6], CommandType::Maven),
{
    let mut r: Vec<Cmd> = Vec::new();
    let mut files: Vec<&'static str> = Vec::new();
    files.push("Cargo.toml");
    r.push(Cmd::new(CommandType::Cargo, files));

    let mut files: Vec<&'static str> = Vec::new();
    files.push("go.mod");
    r.push(Cmd::new(CommandType::Go, files));

    let mut files: Vec<&'static str> = Vec::new();
    files.push("build.gradle");
    files.push("build.gradle.kts");
    r.push(Cmd::new(CommandType::Gradle, files));

    let mut files: Vec<&'static str> = Vec::new();
    files.push("package.json");
    r.push(Cmd::new(CommandType::NodeJs, files));

    let mut files: Vec<&'static str> = Vec::new();
    files.push("pubspec.yaml");
    r.push(Cmd::new(CommandType::Flutter, files));

    let mut files: Vec<&'static str> = Vec::new();
    files.push("requirements.txt");
    files.push("pyproject.toml");
    r.push(Cmd::new(CommandType::Python, files));

    let mut files: Vec<&'static str> = Vec::new();
    files.push("pom.xml");
    r.push(Cmd::new(CommandType::Maven, files));

    proof {
        assert(marker_views(r@[0].related_files@) =~= registry_markers(CommandType::Cargo));
        assert(marker_views(r@[1].related_files@) =~= registry_markers(CommandType::Go));
        assert(marker_views(r@[2].related_files@) =~= registry_markers(CommandType::Gradle));
        assert(marker_views(r@[3].related_files@) =~= registry_markers(CommandType::NodeJs));
        assert(marker_views(r@[4].related_files@) =~= registry_markers(CommandType::Flutter));
        assert(marker_views(r@[5].related_files@) =~= registry_markers(CommandType::Python));
        assert(marker_views(r@[6].related_files@) =~= registry_markers(CommandType::Maven));
    }
    r
}

} // verus!
