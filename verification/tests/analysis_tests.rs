use cargo_workspace_deps::dependency::{
    analyze_workspace, parse_workspace_data, ConflictType, DepSection, DependencySpec,
    MemberManifest, WorkspaceData, WorkspaceDep,
};
use cargo_workspace_deps::VersionResolutionStrategy;

fn dep(name: &str, version: &str) -> DependencySpec {
    DependencySpec {
        name: name.to_string(),
        version: version.to_string(),
        section: DepSection::Dependencies,
        package: None,
        registry: None,
        default_features: Some(true),
    }
}

fn dep_df(name: &str, version: &str, df: bool) -> DependencySpec {
    DependencySpec {
        name: name.to_string(),
        version: version.to_string(),
        section: DepSection::Dependencies,
        package: None,
        registry: None,
        default_features: Some(df),
    }
}

fn ws_dep(name: &str, version: &str) -> WorkspaceDep {
    WorkspaceDep {
        name: name.to_string(),
        version: version.to_string(),
        section: DepSection::Dependencies,
        package: None,
        registry: None,
        default_features: Some(true),
    }
}

fn member(name: &str, deps: Vec<DependencySpec>) -> MemberManifest {
    MemberManifest {
        member: name.to_string(),
        deps,
        workspace_refs: vec![],
    }
}

fn data(ws: Vec<WorkspaceDep>, members: Vec<MemberManifest>) -> WorkspaceData {
    parse_workspace_data(ws, members)
}

#[test]
fn agreeing_declarations_consolidate_without_conflict() {
    let d = data(
        vec![],
        vec![
            member("m1", vec![dep("serde", "1.0")]),
            member("m2", vec![dep("serde", "1.0")]),
        ],
    );
    let analysis = analyze_workspace(&d, &vec![], 2, &VersionResolutionStrategy::Highest);
    assert_eq!(analysis.common_deps.len(), 1);
    let cd = &analysis.common_deps[0];
    assert_eq!(cd.name, "serde");
    assert_eq!(cd.version, "1.0");
    assert_eq!(cd.members, vec!["m1", "m2"]);
    assert_eq!(cd.default_features, Some(true));
    assert!(cd.resolved_from.is_none());
    assert!(analysis.conflicts.is_empty());
    assert!(analysis.unused_workspace_deps.is_empty());
}

#[test]
fn end_to_end_highest_resolution() {
    let d = data(
        vec![],
        vec![
            member("member1", vec![dep("anyhow", "1.0.75")]),
            member("member2", vec![dep("anyhow", "1.0.78")]),
            member("member3", vec![dep("anyhow", "1.0.80")]),
        ],
    );
    let analysis = analyze_workspace(&d, &vec![], 2, &VersionResolutionStrategy::Highest);
    assert_eq!(analysis.common_deps.len(), 1);
    let cd = &analysis.common_deps[0];
    assert_eq!(cd.name, "anyhow");
    assert_eq!(cd.version, "1.0.80");
    assert_eq!(cd.members, vec!["member1", "member2", "member3"]);
    let rf = cd.resolved_from.as_ref().expect("resolved from several versions");
    assert_eq!(rf.len(), 3);
    let mut versions: Vec<&str> = rf.iter().map(|e| e.version.as_str()).collect();
    versions.sort();
    assert_eq!(versions, vec!["1.0.75", "1.0.78", "1.0.80"]);
    for e in rf.iter() {
        match e.version.as_str() {
            "1.0.75" => assert_eq!(e.members, vec!["member1"]),
            "1.0.78" => assert_eq!(e.members, vec!["member2"]),
            "1.0.80" => assert_eq!(e.members, vec!["member3"]),
            other => panic!("unexpected version {}", other),
        }
    }
    assert!(analysis.conflicts.is_empty());
}

#[test]
fn default_features_agreement_is_no_conflict() {
    let d = data(
        vec![],
        vec![
            member("m1", vec![dep_df("tokio", "1.0", true)]),
            member("m2", vec![dep_df("tokio", "1.0", true)]),
        ],
    );
    let analysis = analyze_workspace(&d, &vec![], 2, &VersionResolutionStrategy::Highest);
    assert_eq!(analysis.common_deps.len(), 1);
    assert!(analysis.conflicts.is_empty());
}

#[test]
fn default_features_disagreement_is_a_conflict() {
    let d = data(
        vec![],
        vec![
            member("m1", vec![dep_df("tokio", "1.0", true)]),
            member("m2", vec![dep_df("tokio", "1.0", false)]),
        ],
    );
    let analysis = analyze_workspace(&d, &vec![], 2, &VersionResolutionStrategy::Highest);
    assert!(analysis.common_deps.is_empty());
    assert_eq!(analysis.conflicts.len(), 1);
    let c = &analysis.conflicts[0];
    assert_eq!(c.name, "tokio");
    assert_eq!(c.conflict_types, vec![ConflictType::DefaultFeatures]);
    assert_eq!(c.version_specs.len(), 2);
}

#[test]
fn below_threshold_without_pool_entry_is_not_consolidated() {
    let d = data(vec![], vec![member("m1", vec![dep("serde", "1.0")])]);
    let analysis = analyze_workspace(&d, &vec![], 2, &VersionResolutionStrategy::Highest);
    assert!(analysis.common_deps.is_empty());
    assert!(analysis.conflicts.is_empty());
}

#[test]
fn pool_entry_with_one_member_is_consolidated() {
    let d = data(
        vec![ws_dep("serde", "1.0")],
        vec![member("m1", vec![dep("serde", "1.0")])],
    );
    let analysis = analyze_workspace(&d, &vec![], 2, &VersionResolutionStrategy::Highest);
    assert_eq!(analysis.common_deps.len(), 1);
    assert_eq!(analysis.common_deps[0].members, vec!["m1"]);
    assert!(analysis.unused_workspace_deps.is_empty());
}

#[test]
fn unused_pool_entry_is_reported_once() {
    let d = data(
        vec![ws_dep("regex", "1.10")],
        vec![member("m1", vec![dep("serde", "1.0")])],
    );
    let analysis = analyze_workspace(&d, &vec![], 2, &VersionResolutionStrategy::Highest);
    assert_eq!(analysis.unused_workspace_deps, vec!["regex"]);
}

#[test]
fn already_shared_reference_keeps_pool_entry_used() {
    let d = data(
        vec![ws_dep("regex", "1.10")],
        vec![MemberManifest {
            member: "m1".to_string(),
            deps: vec![],
            workspace_refs: vec![("regex".to_string(), DepSection::Dependencies)],
        }],
    );
    let analysis = analyze_workspace(&d, &vec![], 2, &VersionResolutionStrategy::Highest);
    assert!(analysis.unused_workspace_deps.is_empty());
}

#[test]
fn use_in_another_section_keeps_pool_entry_used() {
    let mut pool = ws_dep("serde", "1.0");
    pool.section = DepSection::DevDependencies;
    let d = data(
        vec![pool],
        vec![MemberManifest {
            member: "m1".to_string(),
            deps: vec![],
            workspace_refs: vec![("serde".to_string(), DepSection::Dependencies)],
        }],
    );
    let analysis = analyze_workspace(&d, &vec![], 2, &VersionResolutionStrategy::Highest);
    assert!(analysis.unused_workspace_deps.is_empty());
}

#[test]
fn consolidation_in_another_section_keeps_pool_entry_used() {
    let mut pool = ws_dep("serde", "1.0");
    pool.section = DepSection::DevDependencies;
    let d = data(
        vec![pool],
        vec![
            member("m1", vec![dep("serde", "1.0")]),
            member("m2", vec![dep("serde", "1.0")]),
        ],
    );
    let analysis = analyze_workspace(&d, &vec![], 2, &VersionResolutionStrategy::Highest);
    assert_eq!(analysis.common_deps.len(), 1);
    assert!(analysis.unused_workspace_deps.is_empty());
}

#[test]
fn unused_name_in_two_sections_is_listed_once() {
    let mut pool_dev = ws_dep("regex", "1.10");
    pool_dev.section = DepSection::DevDependencies;
    let d = data(
        vec![ws_dep("regex", "1.10"), pool_dev],
        vec![member("m1", vec![dep("serde", "1.0")])],
    );
    let analysis = analyze_workspace(&d, &vec![], 2, &VersionResolutionStrategy::Highest);
    assert_eq!(analysis.unused_workspace_deps, vec!["regex"]);
}

#[test]
fn sections_do_not_merge() {
    let mut dev = dep("serde", "1.0");
    dev.section = DepSection::DevDependencies;
    let d = data(
        vec![],
        vec![
            member("m1", vec![dep("serde", "1.0")]),
            member("m2", vec![dev]),
        ],
    );
    let analysis = analyze_workspace(&d, &vec![], 2, &VersionResolutionStrategy::Highest);
    assert!(analysis.common_deps.is_empty());
    assert!(analysis.conflicts.is_empty());
}

#[test]
fn renamed_packages_do_not_merge() {
    let mut renamed = dep("serde", "1.0");
    renamed.package = Some("serde-real".to_string());
    let d = data(
        vec![],
        vec![
            member("m1", vec![dep("serde", "1.0")]),
            member("m2", vec![renamed]),
        ],
    );
    let analysis = analyze_workspace(&d, &vec![], 2, &VersionResolutionStrategy::Highest);
    assert!(analysis.common_deps.is_empty());
    assert!(analysis.conflicts.is_empty());
}

#[test]
fn excluded_names_are_skipped() {
    let d = data(
        vec![],
        vec![
            member("m1", vec![dep("serde", "1.0"), dep("anyhow", "1.0")]),
            member("m2", vec![dep("serde", "1.0"), dep("anyhow", "1.0")]),
        ],
    );
    let analysis = analyze_workspace(
        &d,
        &vec!["serde".to_string()],
        2,
        &VersionResolutionStrategy::Highest,
    );
    assert_eq!(analysis.common_deps.len(), 1);
    assert_eq!(analysis.common_deps[0].name, "anyhow");
}

#[test]
fn failed_resolution_reports_version_conflict() {
    let d = data(
        vec![],
        vec![
            member("m1", vec![dep("tokio", "1.0.0")]),
            member("m2", vec![dep("tokio", "2.0.0")]),
        ],
    );
    let analysis =
        analyze_workspace(&d, &vec![], 2, &VersionResolutionStrategy::HighestCompatible);
    assert!(analysis.common_deps.is_empty());
    assert_eq!(analysis.conflicts.len(), 1);
    let c = &analysis.conflicts[0];
    assert_eq!(c.conflict_types, vec![ConflictType::VersionResolution]);
    assert_eq!(c.version_specs.len(), 2);
}

#[test]
fn failed_resolution_with_feature_disagreement_reports_both() {
    let d = data(
        vec![],
        vec![
            member("m1", vec![dep_df("tokio", "1.0.0", true)]),
            member("m2", vec![dep_df("tokio", "2.0.0", false)]),
        ],
    );
    let analysis =
        analyze_workspace(&d, &vec![], 2, &VersionResolutionStrategy::HighestCompatible);
    assert_eq!(analysis.conflicts.len(), 1);
    assert_eq!(
        analysis.conflicts[0].conflict_types,
        vec![ConflictType::VersionResolution, ConflictType::DefaultFeatures]
    );
}

#[test]
fn skip_policy_leaves_conflicts_alone() {
    let d = data(
        vec![],
        vec![
            member("m1", vec![dep("tokio", "1.0.0")]),
            member("m2", vec![dep("tokio", "1.1.0")]),
        ],
    );
    let analysis = analyze_workspace(&d, &vec![], 2, &VersionResolutionStrategy::Skip);
    assert!(analysis.common_deps.is_empty());
    assert_eq!(analysis.conflicts.len(), 1);
    assert_eq!(
        analysis.conflicts[0].conflict_types,
        vec![ConflictType::VersionResolution]
    );
}

#[test]
fn pool_version_participates_in_resolution() {
    let d = data(
        vec![ws_dep("anyhow", "1.0.70")],
        vec![member("m1", vec![dep("anyhow", "1.0.80")])],
    );
    let analysis = analyze_workspace(&d, &vec![], 2, &VersionResolutionStrategy::Highest);
    assert_eq!(analysis.common_deps.len(), 1);
    let cd = &analysis.common_deps[0];
    assert_eq!(cd.version, "1.0.80");
    let rf = cd.resolved_from.as_ref().unwrap();
    let ws_entry = rf.iter().find(|e| e.version == "1.0.70").unwrap();
    assert_eq!(ws_entry.members, vec!["workspace"]);
}

#[test]
fn empty_workspace_yields_empty_analysis() {
    let d = data(vec![], vec![]);
    let analysis = analyze_workspace(&d, &vec![], 2, &VersionResolutionStrategy::Highest);
    assert!(analysis.common_deps.is_empty());
    assert!(analysis.conflicts.is_empty());
    assert!(analysis.unused_workspace_deps.is_empty());
}
