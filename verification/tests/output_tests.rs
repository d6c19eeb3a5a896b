use cargo_workspace_deps::dependency::{
    analyze_workspace, parse_workspace_data, DepSection, DependencyAnalysis, DependencySpec,
    MemberManifest,
};
use cargo_workspace_deps::error::CheckFailure;
use cargo_workspace_deps::output_format::{format_summary, Output};
use cargo_workspace_deps::{
    check_outcome, sections_to_process, Config, OutputFormat, VersionResolutionStrategy,
};

fn dep(name: &str, version: &str) -> DependencySpec {
    DependencySpec {
        name: name.to_string(),
        version: version.to_string(),
        section: DepSection::Dependencies,
        package: None,
        registry: None,
        default_features: Some(true),
    }
}

fn dep_df(name: &str, version: &str, df: bool) -> DependencySpec {
    DependencySpec {
        name: name.to_string(),
        version: version.to_string(),
        section: DepSection::Dependencies,
        package: None,
        registry: None,
        default_features: Some(df),
    }
}

fn member(name: &str, deps: Vec<DependencySpec>) -> MemberManifest {
    MemberManifest {
        member: name.to_string(),
        deps,
        workspace_refs: vec![],
    }
}

fn analyze(members: Vec<MemberManifest>, strategy: VersionResolutionStrategy) -> DependencyAnalysis {
    let data = parse_workspace_data(vec![], members);
    analyze_workspace(&data, &vec![], 2, &strategy)
}

#[test]
fn section_keys() {
    assert_eq!(DepSection::Dependencies.as_str(), "dependencies");
    assert_eq!(DepSection::DevDependencies.as_str(), "dev-dependencies");
    assert_eq!(DepSection::BuildDependencies.as_str(), "build-dependencies");
    assert_eq!(
        DepSection::Dependencies.workspace_key(),
        "workspace.dependencies"
    );
    assert_eq!(
        DepSection::DevDependencies.workspace_key(),
        "workspace.dev-dependencies"
    );
    assert_eq!(
        DepSection::BuildDependencies.workspace_key(),
        "workspace.build-dependencies"
    );
}

#[test]
fn output_counts_and_sorting() {
    let analysis = analyze(
        vec![
            member("zeta", vec![dep("serde", "1.0"), dep("anyhow", "1.0")]),
            member("alpha", vec![dep("serde", "1.0"), dep("anyhow", "1.0")]),
        ],
        VersionResolutionStrategy::Highest,
    );
    let mut output = Output::new(&analysis, "/ws", 2);
    assert_eq!(output.version, "1");
    assert_eq!(output.workspace.root, "/ws");
    assert_eq!(output.workspace.member_count, 2);
    assert_eq!(output.summary.dependencies_to_consolidate, 2);
    assert_eq!(output.summary.conflicts_resolved, 0);
    assert_eq!(output.summary.conflicts_unresolved, 0);
    output.sort();
    let names: Vec<&str> = output
        .common_dependencies
        .iter()
        .map(|d| d.name.as_str())
        .collect();
    assert_eq!(names, vec!["anyhow", "serde"]);
    for d in &output.common_dependencies {
        assert_eq!(d.members, vec!["alpha", "zeta"]);
        assert_eq!(d.section, "dependencies");
    }
}

#[test]
fn text_report_without_conflicts() {
    let analysis = analyze(
        vec![
            member("m1", vec![dep("serde", "1.0")]),
            member("m2", vec![dep("serde", "1.0")]),
        ],
        VersionResolutionStrategy::Highest,
    );
    let mut output = Output::new(&analysis, "/ws", 2);
    output.sort();
    let text = output.to_text(&VersionResolutionStrategy::Highest);
    let expected = "\nSummary:\n  1 dependencies to consolidate\n\nWill consolidate:\n  serde = \"1.0\" in: m1, m2\n\n";
    assert_eq!(text, expected);
}

#[test]
fn text_report_with_resolved_conflict() {
    let analysis = analyze(
        vec![
            member("member1", vec![dep("anyhow", "1.0.75")]),
            member("member2", vec![dep("anyhow", "1.0.78")]),
            member("member3", vec![dep("anyhow", "1.0.80")]),
        ],
        VersionResolutionStrategy::Highest,
    );
    let mut output = Output::new(&analysis, "/ws", 3);
    output.sort();
    let text = output.to_text(&VersionResolutionStrategy::Highest);
    let expected = "\nSummary:\n  1 dependencies to consolidate\n  1 version conflicts resolved\n\nWill consolidate:\n  anyhow = \"1.0.80\" in: member1, member2, member3\n\nResolved conflicts (using Highest):\n  anyhow: 1.0.75, 1.0.78, 1.0.80 → 1.0.80\n\n";
    assert_eq!(text, expected);
}

#[test]
fn text_report_with_unresolved_conflict_and_unused() {
    let data = parse_workspace_data(
        vec![cargo_workspace_deps::dependency::WorkspaceDep {
            name: "regex".to_string(),
            version: "1.10".to_string(),
            section: DepSection::Dependencies,
            package: None,
            registry: None,
            default_features: Some(true),
        }],
        vec![
            member("m1", vec![dep_df("tokio", "1.0", true)]),
            member("m2", vec![dep_df("tokio", "1.0", false)]),
        ],
    );
    let analysis = analyze_workspace(&data, &vec![], 2, &VersionResolutionStrategy::Highest);
    let mut output = Output::new(&analysis, "/ws", 2);
    output.sort();
    let text = output.to_text(&VersionResolutionStrategy::Highest);
    let expected = "\nSummary:\n  0 dependencies to consolidate\n  1 conflicts could not resolve\n  1 unused workspace dependencies\n\nNo dependencies to consolidate.\n\nCould not resolve:\n  tokio (default-features differ):\n    1.0 (default-features=false) in: m2\n    1.0 (default-features=true) in: m1\n\nUnused workspace dependencies:\n  regex\n\n";
    assert_eq!(text, expected);
}

#[test]
fn summary_line() {
    assert_eq!(format_summary(3), "Consolidated 3 dependencies\n");
    assert_eq!(format_summary(0), "Consolidated 0 dependencies\n");
}

#[test]
fn check_failure_messages() {
    assert_eq!(
        CheckFailure::Consolidation(2).message(),
        "Check failed: 2 dependencies could be consolidated"
    );
    assert_eq!(
        CheckFailure::Conflicts(17).message(),
        "Check failed: 17 unresolved conflicts"
    );
}

#[test]
fn check_outcome_by_analysis() {
    let consolidatable = analyze(
        vec![
            member("m1", vec![dep("serde", "1.0")]),
            member("m2", vec![dep("serde", "1.0")]),
        ],
        VersionResolutionStrategy::Highest,
    );
    assert_eq!(
        check_outcome(&consolidatable),
        Err(CheckFailure::Consolidation(1))
    );
    let conflicted = analyze(
        vec![
            member("m1", vec![dep_df("tokio", "1.0", true)]),
            member("m2", vec![dep_df("tokio", "1.0", false)]),
        ],
        VersionResolutionStrategy::Highest,
    );
    assert_eq!(check_outcome(&conflicted), Err(CheckFailure::Conflicts(1)));
    let clean = analyze(vec![member("m1", vec![dep("serde", "1.0")])], VersionResolutionStrategy::Highest);
    assert_eq!(check_outcome(&clean), Ok(()));
}

#[test]
fn section_selection_follows_the_flags() {
    let mut config = Config {
        fix: false,
        process_dependencies: true,
        process_dev_dependencies: false,
        process_build_dependencies: true,
        workspace_path: None,
        exclude: vec![],
        min_members: 2,
        exclude_members: vec![],
        check: false,
        version_resolution_strategy: VersionResolutionStrategy::HighestCompatible,
        output_format: OutputFormat::Text,
    };
    assert_eq!(
        sections_to_process(&config),
        vec![DepSection::Dependencies, DepSection::BuildDependencies]
    );
    config.process_dependencies = false;
    config.process_dev_dependencies = true;
    config.process_build_dependencies = false;
    assert_eq!(sections_to_process(&config), vec![DepSection::DevDependencies]);
    config.process_dev_dependencies = false;
    assert_eq!(sections_to_process(&config), vec![]);
}
