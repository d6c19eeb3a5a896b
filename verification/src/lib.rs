//! Consolidates duplicated dependency declarations across the members of a
//! cargo workspace into shared `[workspace.dependencies]` entries, detecting
//! the cases where consolidation is unsafe because versions or the
//! default-features flag disagree.

use vstd::prelude::*;

pub mod dependency;
pub mod error;
pub mod output_format;
pub mod strutil;
pub mod version;
pub mod version_resolver;
pub mod workspace;

verus! {

/// How a version disagreement between members is settled.
///
/// These five policies are the complete set: `Skip` and `Fail` refuse every
/// multi-version key, `Highest` and `Lowest` pick an extreme of the versions
/// that parse, and `HighestCompatible` picks the highest version that
/// satisfies every member's requirement.
#[derive(Clone, Copy, Debug, PartialEq, Eq, Structural)]
pub enum VersionResolutionStrategy {
    Skip,
    Highest,
    HighestCompatible,
    Lowest,
    Fail,
}

/// How results are rendered for the caller.
#[derive(Clone, Debug, Copy, PartialEq, Eq, Structural)]
pub enum OutputFormat {
    Text,
    Json,
}

/// One run's configuration.
pub struct Config {
    /// Apply changes without prompting for confirmation.
    pub fix: bool,
    pub process_dependencies: bool,
    pub process_dev_dependencies: bool,
    pub process_build_dependencies: bool,
    /// Where to discover the workspace; the current directory when absent.
    pub workspace_path: Option<String>,
    /// Dependency names never consolidated.
    pub exclude: Vec<String>,
    /// How many members must share a dependency before a fresh shared-pool
    /// entry is worth creating.
    pub min_members: usize,
    /// Member-name glob patterns excluded from analysis.
    pub exclude_members: Vec<String>,
    /// Fail instead of rewriting when anything would change.
    pub check: bool,
    pub version_resolution_strategy: VersionResolutionStrategy,
    pub output_format: OutputFormat,
}

/// The sections a configuration selects, in their fixed order.
pub open spec fn spec_sections(deps: bool, dev: bool, build: bool) -> Seq<
    dependency::DepSection,
> {
    (if deps {
        seq![dependency::DepSection::Dependencies]
    } else {
        Seq::empty()
    }) + (if dev {
        seq![dependency::DepSection::DevDependencies]
    } else {
        Seq::empty()
    }) + (if build {
        seq![dependency::DepSection::BuildDependencies]
    } else {
        Seq::empty()
    })
}

/// The manifest sections this configuration elects to process.
pub fn sections_to_process(config: &Config) -> (r: Vec<dependency::DepSection>)
    ensures
        r@ == spec_sections(
            config.process_dependencies,
            config.process_dev_dependencies,
            config.process_build_dependencies,
        ),
{
    let mut r: Vec<dependency::DepSection> = Vec::new();
    if config.process_dependencies {
        r.push(dependency::DepSection::Dependencies);
    }
    if config.process_dev_dependencies {
        r.push(dependency::DepSection::DevDependencies);
    }
    if config.process_build_dependencies {
        r.push(dependency::DepSection::BuildDependencies);
    }
    proof {
        assert(r@ =~= spec_sections(
            config.process_dependencies,
            config.process_dev_dependencies,
            config.process_build_dependencies,
        ));
    }
    r
}

/// The verdict of a check-mode run: an error naming the consolidation count
/// when anything could be consolidated, else an error naming the conflict
/// count when anything is unresolved, else success.
pub fn check_outcome(analysis: &dependency::DependencyAnalysis) -> (r: Result<
    (),
    error::CheckFailure,
>)
    ensures
        r is Ok <==> analysis.common_deps@.len() == 0 && analysis.conflicts@.len() == 0,
        analysis.common_deps@.len() > 0 ==> r == Err::<(), error::CheckFailure>(
            error::CheckFailure::Consolidation(analysis.common_deps@.len() as usize),
        ),
        analysis.common_deps@.len() == 0 && analysis.conflicts@.len() > 0 ==> r == Err::<
            (),
            error::CheckFailure,
        >(error::CheckFailure::Conflicts(analysis.conflicts@.len() as usize)),
{
    if analysis.common_deps.len() > 0 {
        Err(error::CheckFailure::Consolidation(analysis.common_deps.len()))
    } else if analysis.conflicts.len() > 0 {
        Err(error::CheckFailure::Conflicts(analysis.conflicts.len()))
    } else {
        Ok(())
    }
}

} // verus!
