use cargo_workspace_deps::version::lenient_parse;
use cargo_workspace_deps::version_resolver::{
    resolve_version_conflict, ResolveError, VersionMembers,
};
use cargo_workspace_deps::VersionResolutionStrategy;

fn vm(version: &str, members: &[&str]) -> VersionMembers {
    VersionMembers {
        version: version.to_string(),
        members: members.iter().map(|m| m.to_string()).collect(),
    }
}

#[test]
fn lenient_parse_pads_two_components() {
    let v = lenient_parse("1.0").expect("should parse");
    assert_eq!(v.text, "1.0.0");
    assert_eq!((v.major, v.minor, v.patch), (1, 0, 0));
    assert!(v.pre.is_empty());
}

#[test]
fn lenient_parse_pads_one_component() {
    let v = lenient_parse("2").expect("should parse");
    assert_eq!(v.text, "2.0.0");
    assert_eq!((v.major, v.minor, v.patch), (2, 0, 0));
}

#[test]
fn lenient_parse_rejects_partial_prerelease() {
    assert!(lenient_parse("1.0-rc1").is_none());
}

#[test]
fn lenient_parse_rejects_leading_v() {
    assert!(lenient_parse("v1.0.0").is_none());
}

#[test]
fn lenient_parse_keeps_full_versions() {
    let v = lenient_parse("1.2.3-alpha.1+build5").expect("should parse");
    assert_eq!((v.major, v.minor, v.patch), (1, 2, 3));
    assert_eq!(v.pre, "alpha.1");
    assert_eq!(v.build, "build5");
    assert_eq!(v.text, "1.2.3-alpha.1+build5");
}

#[test]
fn lenient_parse_rejects_garbage() {
    assert!(lenient_parse("").is_none());
    assert!(lenient_parse("1..2").is_none());
    assert!(lenient_parse("1.").is_none());
    assert!(lenient_parse("abc").is_none());
}

#[test]
fn highest_picks_the_maximum() {
    let map = vec![
        vm("1.0.100", &["member1"]),
        vm("1.0.150", &["member2"]),
        vm("1.0.120", &["member3"]),
    ];
    let (version, members) =
        resolve_version_conflict(&map, &VersionResolutionStrategy::Highest).unwrap();
    assert_eq!(version, "1.0.150");
    assert_eq!(members, vec!["member1", "member2", "member3"]);
}

#[test]
fn lowest_picks_the_minimum() {
    let map = vec![
        vm("1.0.100", &["member1"]),
        vm("1.0.150", &["member2"]),
        vm("1.0.120", &["member3"]),
    ];
    let (version, _) =
        resolve_version_conflict(&map, &VersionResolutionStrategy::Lowest).unwrap();
    assert_eq!(version, "1.0.100");
}

#[test]
fn highest_normalizes_abbreviated_versions() {
    let map = vec![vm("1.0", &["m1"]), vm("1.2", &["m2"])];
    let (version, _) =
        resolve_version_conflict(&map, &VersionResolutionStrategy::Highest).unwrap();
    assert_eq!(version, "1.2.0");
}

#[test]
fn extreme_policies_ignore_input_order() {
    let orders: [[&str; 3]; 3] = [
        ["1.0.100", "1.0.150", "1.0.120"],
        ["1.0.150", "1.0.120", "1.0.100"],
        ["1.0.120", "1.0.100", "1.0.150"],
    ];
    for order in orders.iter() {
        let map: Vec<VersionMembers> = order.iter().map(|v| vm(v, &["m"])).collect();
        let (hi, _) =
            resolve_version_conflict(&map, &VersionResolutionStrategy::Highest).unwrap();
        let (lo, _) = resolve_version_conflict(&map, &VersionResolutionStrategy::Lowest).unwrap();
        assert_eq!(hi, "1.0.150");
        assert_eq!(lo, "1.0.100");
    }
}

#[test]
fn skip_and_fail_reject_every_conflict() {
    let map = vec![vm("1.0.0", &["m1"]), vm("1.1.0", &["m2"])];
    assert_eq!(
        resolve_version_conflict(&map, &VersionResolutionStrategy::Skip),
        Err(ResolveError::PolicyRejection)
    );
    assert_eq!(
        resolve_version_conflict(&map, &VersionResolutionStrategy::Fail),
        Err(ResolveError::PolicyRejection)
    );
}

#[test]
fn unparseable_versions_fail_resolution() {
    let map = vec![vm("abc", &["m1"]), vm("def", &["m2"])];
    assert_eq!(
        resolve_version_conflict(&map, &VersionResolutionStrategy::Highest),
        Err(ResolveError::ParseFailure)
    );
    assert_eq!(
        resolve_version_conflict(&map, &VersionResolutionStrategy::Lowest),
        Err(ResolveError::ParseFailure)
    );
    assert_eq!(
        resolve_version_conflict(&map, &VersionResolutionStrategy::HighestCompatible),
        Err(ResolveError::ParseFailure)
    );
}

#[test]
fn highest_compatible_picks_highest_within_range() {
    let map = vec![
        vm("1.0.100", &["member1"]),
        vm("1.0.150", &["member2"]),
        vm("1.0.120", &["member3"]),
    ];
    let (version, members) =
        resolve_version_conflict(&map, &VersionResolutionStrategy::HighestCompatible).unwrap();
    assert_eq!(version, "1.0.150");
    assert_eq!(members.len(), 3);
}

#[test]
fn highest_compatible_normalizes_abbreviated_versions() {
    let map = vec![vm("1.0", &["m1"]), vm("1.2", &["m2"])];
    let (version, _) =
        resolve_version_conflict(&map, &VersionResolutionStrategy::HighestCompatible).unwrap();
    assert_eq!(version, "1.2.0");
}

#[test]
fn highest_compatible_rejects_incompatible_majors() {
    let map = vec![vm("1.0.0", &["m1"]), vm("2.0.0", &["m2"])];
    assert_eq!(
        resolve_version_conflict(&map, &VersionResolutionStrategy::HighestCompatible),
        Err(ResolveError::IncompatibleRequirements)
    );
}

#[test]
fn highest_compatible_rejects_zero_major_minor_break() {
    let map = vec![vm("0.1.0", &["m1"]), vm("0.2.0", &["m2"])];
    assert_eq!(
        resolve_version_conflict(&map, &VersionResolutionStrategy::HighestCompatible),
        Err(ResolveError::IncompatibleRequirements)
    );
}

#[test]
fn single_version_passes_through_any_policy() {
    let map = vec![vm("1.4.2", &["m1", "m2"])];
    for strategy in [
        VersionResolutionStrategy::Highest,
        VersionResolutionStrategy::Lowest,
        VersionResolutionStrategy::HighestCompatible,
    ] {
        let (version, members) = resolve_version_conflict(&map, &strategy).unwrap();
        assert_eq!(version, "1.4.2");
        assert_eq!(members, vec!["m1", "m2"]);
    }
}
