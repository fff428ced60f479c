//! Ecosystems and their cleanup strategies.
//!
//! A `Cmd` pairs an ecosystem identifier (`CommandType`) with the marker
//! files whose presence in a directory makes that directory a project of the
//! ecosystem.  Each ecosystem cleans either by running its own external
//! clean command or by deleting a fixed list of well-known cache
//! directories.

use vstd::prelude::*;
use vstd::string::StringExecFns;
use crate::utils::eq_str;

verus! {

/// Error produced while executing one cleanup task.
#[derive(Debug, Clone)]
pub enum CleanError {
    /// The ecosystem's external clean command could not be spawned.
    CommandExecutionFailed { command: String, path: String, reason: String },
    /// A well-known cache directory could not be removed.
    DirectoryRemovalFailed { path: String, reason: String },
    /// Any other failure.
    Unknown(String),
}

/// Identifier of an ecosystem (a language or build-tool family).
#[derive(Debug, Clone, Copy, PartialEq, Eq, Structural, Hash)]
pub enum CommandType {
    Cargo,
    Go,
    Gradle,
    NodeJs,
    Flutter,
    Python,
    Maven,
    MavenCmd,
}

/// How an ecosystem is cleaned: by spawning its own clean command, or by
/// deleting a fixed list of well-known cache paths.
#[derive(Debug, Clone, Copy, PartialEq, Eq, Structural)]
pub enum CleanStrategy {
    RunExternalClean,
    DeleteKnownPaths,
}

/// The name of the ecosystem's command-line tool.
pub open spec fn command_name(c: CommandType) -> Seq<char> {
    match c {
        CommandType::Cargo => "cargo"@,
        CommandType::Go => "go"@,
        CommandType::Gradle => "gradle"@,
        CommandType::NodeJs => "nodejs"@,
        CommandType::Flutter => "flutter"@,
        CommandType::Python => "python"@,
        CommandType::Maven => "mvn"@,
        CommandType::MavenCmd => "mvn.cmd"@,
    }
}

impl CommandType {
    /// The name under which this ecosystem's tool is invoked.
    pub fn as_str(&self) -> (r: &'static str)
        ensures
            r@ == command_name(*self),
    {
        match self {
            CommandType::Cargo => "cargo",
            CommandType::Go => "go",
            CommandType::Gradle => "gradle",
            CommandType::NodeJs => "nodejs",
            CommandType::Flutter => "flutter",
            CommandType::Python => "python",
            CommandType::Maven => "mvn",
            CommandType::MavenCmd => "mvn.cmd",
        }
    }

    /// The ecosystem whose tool carries this name, if any.
    pub fn from_name(s: &str) -> (r: Option<CommandType>)
        ensures
            match r {
                Some(c) => command_name(c) == s@,
                None => forall|c: CommandType| command_name(c) != s@,
            },
    {
        let v = String::from_str(s);
        if v == String::from_str("cargo") {
            Some(CommandType::Cargo)
        } else if v == String::from_str("go") {
            Some(CommandType::Go)
        } else if v == String::from_str("gradle") {
            Some(CommandType::Gradle)
        } else if v == String::from_str("nodejs") {
            Some(CommandType::NodeJs)
        } else if v == String::from_str("flutter") {
            Some(CommandType::Flutter)
        } else if v == String::from_str("python") {
            Some(CommandType::Python)
        } else if v == String::from_str("mvn") {
            Some(CommandType::Maven)
        } else if v == String::from_str("mvn.cmd") {
            Some(CommandType::MavenCmd)
        } else {
            proof {
                assert forall|c: CommandType| command_name(c) != s@ by {
                    match c {
                        CommandType::Cargo => assert(command_name(c) == "cargo"@),
                        CommandType::Go => assert(command_name(c) == "go"@),
                        CommandType::Gradle => assert(command_name(c) == "gradle"@),
                        CommandType::NodeJs => assert(command_name(c) == "nodejs"@),
                        CommandType::Flutter => assert(command_name(c) == "flutter"@),
                        CommandType::Python => assert(command_name(c) == "python"@),
                        CommandType::Maven => assert(command_name(c) == "mvn"@),
                        CommandType::MavenCmd => assert(command_name(c) == "mvn.cmd"@),
                    }
                }
            }
            None
        }
    }

    /// How this ecosystem is cleaned.  Node and Python projects have their
    /// well-known cache directories deleted directly; every other ecosystem
    /// runs its own external clean command.
    pub fn strategy(&self) -> (r: CleanStrategy)
        ensures
            r == strategy_of(*self),
    {
        match self {
            CommandType::NodeJs => CleanStrategy::DeleteKnownPaths,
            CommandType::Python => CleanStrategy::DeleteKnownPaths,
            _ => CleanStrategy::RunExternalClean,
        }
    }
}

/// The strategy each ecosystem uses.
pub open spec fn strategy_of(c: CommandType) -> CleanStrategy {
    match c {
        CommandType::NodeJs => CleanStrategy::DeleteKnownPaths,
        CommandType::Python => CleanStrategy::DeleteKnownPaths,
        _ => CleanStrategy::RunExternalClean,
    }
}

/// A name that ends in ".egg-info".
pub open spec fn is_egg_info(s: Seq<char>) -> bool {
    s.len() >= ".egg-info"@.len() && s.subrange(
        s.len() - ".egg-info"@.len(),
        s.len() as int,
    ) == ".egg-info"@
}

/// Relies on glob::Pattern: with the default match options, `*` matches any
/// character sequence, so the pattern "*.egg-info" matches a name exactly
/// when the name ends in ".egg-info".
#[verifier::external_body]
fn matches_egg_info(name: &str) -> (r: bool)
    ensures
        r == is_egg_info(name@),
{
    match glob::Pattern::new("*.egg-info") {
        Ok(p) => p.matches(name),
        Err(_) => false,
    }
}

/// A directory name that a Node project's cleanup deletes.
pub open spec fn is_node_cache_name(n: Seq<char>) -> bool {
    ||| n == "node_modules"@ ||| n == "dist"@ ||| n == "build"@ ||| n == ".next"@
    ||| n == "out"@ ||| n == "coverage"@ ||| n == ".cache"@
}

/// A directory name that a Python project's cleanup deletes.
pub open spec fn is_python_cache_name(n: Seq<char>) -> bool {
    ||| n == "__pycache__"@ ||| n == "build"@ ||| n == "dist"@ ||| n == ".eggs"@
    ||| n == ".pytest_cache"@ ||| n == "htmlcov"@ ||| n == ".mypy_cache"@
    ||| n == "venv"@ ||| n == ".venv"@ ||| is_egg_info(n)
}

/// A subdirectory name that cleaning under ecosystem `c` deletes.  Only the
/// delete-known-paths ecosystems delete anything of the tree themselves.
pub open spec fn is_clean_target(c: CommandType, n: Seq<char>) -> bool {
    match c {
        CommandType::NodeJs => is_node_cache_name(n),
        CommandType::Python => is_python_cache_name(n),
        _ => false,
    }
}

/// Whether cleaning under ecosystem `c` deletes a subdirectory of this
/// name.
pub fn is_clean_target_x(c: CommandType, name: &String) -> (r: bool)
    ensures
        r == is_clean_target(c, name@),
{
    match c {
        CommandType::NodeJs => eq_str(name, "node_modules") || eq_str(name, "dist") || eq_str(
            name,
            "build",
        ) || eq_str(name, ".next") || eq_str(name, "out") || eq_str(name, "coverage") || eq_str(
            name,
            ".cache",
        ),
        CommandType::Python => eq_str(name, "__pycache__") || eq_str(name, "build") || eq_str(
            name,
            "dist",
        ) || eq_str(name, ".eggs") || eq_str(name, ".pytest_cache") || eq_str(name, "htmlcov")
            || eq_str(name, ".mypy_cache") || eq_str(name, "venv") || eq_str(name, ".venv")
            || matches_egg_info(name.as_str()),
        _ => false,
    }
}

/// One ecosystem together with its marker files.
pub struct Cmd {
    pub command_type: CommandType,
    pub related_files: Vec<&'static str>,
}

impl Cmd {
    /// Pair an ecosystem with its marker files.
    pub fn new(command_type: CommandType, related_files: Vec<&'static str>) -> (r: Self)
        ensures
            r.command_type == command_type,
            r.related_files == related_files,
    {
        Self { command_type, related_files }
    }
}

} // verus!
