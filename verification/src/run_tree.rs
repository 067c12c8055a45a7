//! The options of a run over a tree of source files.
use std::path::PathBuf;
use vstd::prelude::*;
use vstd::string::StringExecFns;

use crate::fixer::TargetVersion;

verus! {

/// Paths are carried through; nothing is claimed of what is inside one.
#[verifier::external_type_specification]
#[verifier::external_body]
pub struct ExPathBuf(std::path::PathBuf);

/// The options of a run.
pub struct RunTreeArgs {
    /// The directory of the source files.
    pub input_dir: PathBuf,
    /// Where the output goes.
    pub output_path: PathBuf,
    /// Where the verbose output goes.
    pub verbose_output_path: Option<PathBuf>,
    /// The directory of installed packages, in place of the one that the project names.
    pub site_packages: Option<PathBuf>,
    /// Whether to print diagnostics.
    pub print_diagnostics: bool,
    /// Whether to sort the output.
    pub sorted_output: bool,
    /// The module that is run as `__main__`.
    pub main_module: Option<String>,
    /// The version of Python that the source is parsed as.
    pub python_version: String,
    /// Whether to make eligible imports lazy.
    pub fix: bool,
    /// Whether to print the fixes only.
    pub dry_run: bool,
    /// The version of Python that the fixes are for.
    pub target_version: String,
}

/// A version of Python that there are no fixes for.
#[derive(Debug, PartialEq, Eq)]
pub struct UnsupportedTargetVersion {
    pub version: String,
}

impl UnsupportedTargetVersion {
    /// What to tell the user.
    pub fn message(&self) -> (r: String)
        ensures
            r@ == "Unsupported target version for --fix: "@ + self.version@
                + ". Must be 3.14 or 3.15"@,
    {
        let mut r: String = "Unsupported target version for --fix: ".to_owned();
        r.append(self.version.as_str());
        r.append(". Must be 3.14 or 3.15");
        r
    }
}

/// The version of Python that a text names, if there are fixes for it.
pub open spec fn named_version(text: Seq<char>) -> Option<TargetVersion> {
    if text == "3.14"@ {
        Some(TargetVersion::Py314)
    } else if text == "3.15"@ {
        Some(TargetVersion::Py315)
    } else {
        None
    }
}

/// The version of Python that `text` names.
pub fn parse_target_version(text: &String) -> (r: Result<TargetVersion, UnsupportedTargetVersion>)
    ensures
        match named_version(text@) {
            Some(version) => r == Ok::<TargetVersion, UnsupportedTargetVersion>(version),
            None => r matches Err(error) && error.version@ == text@,
        },
{
    if *text == "3.14".to_owned() {
        Ok(TargetVersion::Py314)
    } else if *text == "3.15".to_owned() {
        Ok(TargetVersion::Py315)
    } else {
        Err(UnsupportedTargetVersion { version: text.clone() })
    }
}

impl RunTreeArgs {
    /// Whether fixes are asked for: to make them, or to print them.
    pub open spec fn wants_fixes(self) -> bool {
        self.fix || self.dry_run
    }

    /// The version of Python that fixes are asked for, if they are. The version is looked at only
    /// then.
    pub fn requested_fixes(&self) -> (r: Result<Option<TargetVersion>, UnsupportedTargetVersion>)
        ensures
            if !self.wants_fixes() {
                r == Ok::<Option<TargetVersion>, UnsupportedTargetVersion>(None)
            } else {
                match named_version(self.target_version@) {
                    Some(version) => r == Ok::<Option<TargetVersion>, UnsupportedTargetVersion>(
                        Some(version),
                    ),
                    None => r matches Err(error) && error.version@ == self.target_version@,
                }
            },
    {
        if !(self.fix || self.dry_run) {
            return Ok(None);
        }
        match parse_target_version(&self.target_version) {
            Ok(version) => Ok(Some(version)),
            Err(error) => Err(error),
        }
    }
}

} // verus!
