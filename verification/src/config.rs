//! Run configuration and its validation.

use vstd::prelude::*;
use vstd::string::StringExecFns;
use crate::utils::{
    valid_excl_name, valid_path_syntax, validate_exclude_dir_name, validate_path_syntax,
};
use crate::constant::{DEFAULT_MAX_DIRECTORY_DEPTH, DEFAULT_MAX_FILES_PER_PROJECT};

verus! {

/// Error raised when a configuration value is rejected.
#[derive(Debug, Clone)]
pub enum ConfigError {
    /// A configuration value failed validation; the payload says why.
    InvalidConfig(String),
}

/// Settings for one cleanup run: the root path, the exclusion set, and the
/// traversal ceilings.
#[derive(Debug, Clone)]
pub struct Config {
    /// Path of the directory tree to clean.
    pub path: String,
    /// Directory names whose subtrees are never scanned.
    pub exclude_dir: Vec<String>,
    /// Ceiling on traversal depth below the root.
    pub max_directory_depth: usize,
    /// Ceiling on the number of files visited per size computation.
    pub max_files_per_project: usize,
    /// Whether to print verbose output.
    pub verbose: bool,
    /// Whether to only report what would be cleaned.
    pub dry_run: bool,
}

/// A configuration the core accepts: a syntactically safe path, acceptable
/// exclusion names, and nonzero ceilings.
pub open spec fn valid_config(c: Config) -> bool {
    &&& valid_path_syntax(c.path@)
    &&& forall|i: int|
        0 <= i < c.exclude_dir@.len() ==> valid_excl_name(#[trigger] c.exclude_dir@[i]@)
    &&& c.max_directory_depth != 0
    &&& c.max_files_per_project != 0
}

impl Config {
    /// Checks every configuration value.  Accepts exactly when
    /// `valid_config` holds; the first offending value decides the error.
    pub fn validate(&self) -> (r: Result<(), ConfigError>)
        ensures
            r is Ok <==> valid_config(*self),
    {
        match validate_path_syntax(self.path.as_str()) {
            Ok(_) => {},
            Err(e) => {
                return Err(e);
            },
        }
        let mut i: usize = 0;
        while i < self.exclude_dir.len()
            invariant
                i <= self.exclude_dir@.len(),
                forall|j: int| 0 <= j < i ==> valid_excl_name(#[trigger] self.exclude_dir@[j]@),
            decreases self.exclude_dir@.len() - i,
        {
            match validate_exclude_dir_name(self.exclude_dir[i].as_str()) {
                Ok(_) => {},
                Err(e) => {
                    return Err(e);
                },
            }
            i = i + 1;
        }
        if self.max_directory_depth == 0 {
            return Err(ConfigError::InvalidConfig(
                String::from_str("max_directory_depth cannot be 0"),
            ));
        }
        if self.max_files_per_project == 0 {
            return Err(ConfigError::InvalidConfig(
                String::from_str("max_files_per_project cannot be 0"),
            ));
        }
        Ok(())
    }
}

impl Default for Config {
    /// The documented defaults: clean the current directory, skip the usual
    /// build-output directories, and apply the default ceilings.
    fn default() -> (r: Config)
        ensures
            r.path@ == "."@,
            r.exclude_dir@.len() == 5,
            r.exclude_dir@[0]@ == "node_modules"@,
            r.exclude_dir@[1]@ == "target"@,
            r.exclude_dir@[2]@ == "dist"@,
            r.exclude_dir@[3]@ == "build"@,
            r.exclude_dir@[4]@ == "vendor"@,
            r.max_directory_depth == DEFAULT_MAX_DIRECTORY_DEPTH,
            r.max_files_per_project == DEFAULT_MAX_FILES_PER_PROJECT,
            !r.verbose,
            !r.dry_run,
    {
        let mut exclude_dir: Vec<String> = Vec::new();
        exclude_dir.push(String::from_str("node_modules"));
        exclude_dir.push(String::from_str("target"));
        exclude_dir.push(String::from_str("dist"));
        exclude_dir.push(String::from_str("build"));
        exclude_dir.push(String::from_str("vendor"));
        Config {
            path: String::from_str("."),
            exclude_dir,
            max_directory_depth: DEFAULT_MAX_DIRECTORY_DEPTH,
            max_files_per_project: DEFAULT_MAX_FILES_PER_PROJECT,
            verbose: false,
            dry_run: false,
        }
    }
}

} // verus!
