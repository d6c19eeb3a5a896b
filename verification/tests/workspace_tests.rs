use cargo_workspace_deps::workspace::{MemberInfo, WorkspaceInfo};

fn ws(names: &[&str]) -> WorkspaceInfo {
    WorkspaceInfo {
        root_manifest: "Cargo.toml".to_string(),
        members: names
            .iter()
            .map(|n| MemberInfo {
                name: n.to_string(),
                manifest_path: format!("{}/Cargo.toml", n),
            })
            .collect(),
    }
}

#[test]
fn empty_pattern_list_keeps_everything() {
    let mut w = ws(&["app", "test-a"]);
    let removed = w.filter_by_patterns(&vec![]);
    assert_eq!(removed, 0);
    assert_eq!(w.members.len(), 2);
}

#[test]
fn glob_patterns_drop_matching_members() {
    let mut w = ws(&["app", "test-a", "test-b", "bench-x"]);
    let removed = w.filter_by_patterns(&vec!["test-*".to_string()]);
    assert_eq!(removed, 2);
    let names: Vec<&str> = w.members.iter().map(|m| m.name.as_str()).collect();
    assert_eq!(names, vec!["app", "bench-x"]);
}

#[test]
fn several_patterns_combine() {
    let mut w = ws(&["app", "test-a", "bench-x"]);
    let removed = w.filter_by_patterns(&vec!["test-*".to_string(), "bench-*".to_string()]);
    assert_eq!(removed, 2);
    assert_eq!(w.members.len(), 1);
    assert_eq!(w.members[0].name, "app");
}

#[test]
fn invalid_pattern_matches_nothing() {
    let mut w = ws(&["app", "test-a"]);
    let removed = w.filter_by_patterns(&vec!["[".to_string()]);
    assert_eq!(removed, 0);
    assert_eq!(w.members.len(), 2);
}

#[test]
fn question_mark_matches_single_characters() {
    let mut w = ws(&["m1", "m22"]);
    let removed = w.filter_by_patterns(&vec!["m?".to_string()]);
    assert_eq!(removed, 1);
    assert_eq!(w.members[0].name, "m22");
}
