//! The dependency consolidation engine's data model and analysis.
//!
//! Declarations extracted from the workspace's manifests are grouped into
//! equivalence classes keyed by (name, section, renamed package, registry);
//! each class's distinct (version, default-features) observations are
//! tallied, version disagreement is settled by the configured policy, the
//! default-features flag is reconciled, and each class becomes either a
//! consolidated shared declaration, a reported conflict, or nothing.

use vstd::prelude::*;
use crate::strutil::{contains_string, str_eq, views_of};
use crate::version_resolver::{resolve_spec, resolve_version_conflict, VersionMembers};
use crate::VersionResolutionStrategy;

verus! {

/// The manifest section a declaration lives in.
#[derive(Debug, Clone, Copy, PartialEq, Eq, Hash, Structural)]
pub enum DepSection {
    Dependencies,
    DevDependencies,
    BuildDependencies,
}

impl DepSection {
    /// The section's key in a member manifest.
    pub open spec fn spec_str(self) -> Seq<char> {
        match self {
            DepSection::Dependencies => "dependencies"@,
            DepSection::DevDependencies => "dev-dependencies"@,
            DepSection::BuildDependencies => "build-dependencies"@,
        }
    }

    /// The section's key under the workspace table.
    pub open spec fn spec_workspace_key(self) -> Seq<char> {
        match self {
            DepSection::Dependencies => "workspace.dependencies"@,
            DepSection::DevDependencies => "workspace.dev-dependencies"@,
            DepSection::BuildDependencies => "workspace.build-dependencies"@,
        }
    }

    /// The section's key in a member manifest.
    pub fn as_str(&self) -> (r: &str)
        ensures
            r@ == self.spec_str(),
    {
        match self {
            DepSection::Dependencies => "dependencies",
            DepSection::DevDependencies => "dev-dependencies",
            DepSection::BuildDependencies => "build-dependencies",
        }
    }

    /// The section's key under the workspace table.
    pub fn workspace_key(&self) -> (r: &str)
        ensures
            r@ == self.spec_workspace_key(),
    {
        match self {
            DepSection::Dependencies => "workspace.dependencies",
            DepSection::DevDependencies => "workspace.dev-dependencies",
            DepSection::BuildDependencies => "workspace.build-dependencies",
        }
    }
}

/// One dependency line observed in one member's manifest.
///
/// Declarations that point at a local path or a version-control source never
/// reach the engine; the default-features flag is normalized to `Some` at
/// extraction time, so that reconciliation only ever compares explicit
/// booleans.
pub struct DependencySpec {
    pub name: String,
    pub version: String,
    pub section: DepSection,
    pub package: Option<String>,
    pub registry: Option<String>,
    pub default_features: Option<bool>,
}

/// One entry of the workspace's shared dependency pool.
pub struct WorkspaceDep {
    pub name: String,
    pub version: String,
    pub section: DepSection,
    pub package: Option<String>,
    pub registry: Option<String>,
    pub default_features: Option<bool>,
}

/// One member's explicit declarations.
pub struct MemberDeps {
    pub member: String,
    pub deps: Vec<DependencySpec>,
}

/// What declaration extraction found for one member manifest.
pub struct MemberManifest {
    pub member: String,
    pub deps: Vec<DependencySpec>,
    pub workspace_refs: Vec<(String, DepSection)>,
}

/// All parsed dependency data of one workspace.
pub struct WorkspaceData {
    pub workspace_deps: Vec<WorkspaceDep>,
    pub member_deps: Vec<MemberDeps>,
    pub workspace_refs: Vec<(String, DepSection)>,
}

/// The identity under which declarations are considered "the same
/// dependency" for consolidation: name, section, renamed package and
/// registry.
///
/// The section is part of the key by design: a consolidated entry is
/// written into one section's pool table and its members reference it from
/// that same section, so declarations in different sections never merge.
/// Only unused-pool detection looks across sections, by name alone. The
/// default-features flag is deliberately not part of the key, so that
/// disagreement on it is detected rather than split apart.
pub struct WorkspaceDepKey {
    pub name: String,
    pub section: DepSection,
    pub package: Option<String>,
    pub registry: Option<String>,
}

/// The members that declared one version of a key, and whether the shared
/// pool declares it too.
pub struct VersionUsage {
    pub members: Vec<String>,
    pub in_workspace: bool,
}

/// One distinct version of a key with its usage.
pub struct VersionEntry {
    pub version: String,
    pub usage: VersionUsage,
}

/// One distinct (version, default-features) observation of a key with its
/// usage.
pub struct SpecEntry {
    pub version: String,
    pub default_features: Option<bool>,
    pub usage: VersionUsage,
}

/// A dependency that will be (or already is) consolidated into the shared
/// pool.
pub struct CommonDependency {
    pub name: String,
    pub version: String,
    pub section: DepSection,
    pub members: Vec<String>,
    pub package: Option<String>,
    pub registry: Option<String>,
    pub default_features: Option<bool>,
    /// The original version strings each member used, when resolution
    /// collapsed more than one version; `None` when a single version was
    /// observed.
    pub resolved_from: Option<Vec<VersionMembers>>,
}

/// One distinct (version, default-features) observation reported in a
/// conflict.
pub struct VersionSpec {
    pub version: String,
    pub default_features: Option<bool>,
    pub members: Vec<String>,
}

/// Why an equivalence class could not be consolidated.
#[derive(Debug, Clone, Copy, PartialEq, Eq, Structural)]
pub enum ConflictType {
    VersionResolution,
    DefaultFeatures,
}

/// An equivalence class whose declarations could not be reconciled.
pub struct ConflictingDependency {
    pub name: String,
    pub section: DepSection,
    pub version_specs: Vec<VersionSpec>,
    pub conflict_types: Vec<ConflictType>,
}

/// The engine's full result: what to consolidate, what conflicts, and which
/// shared-pool entries nothing uses.
pub struct DependencyAnalysis {
    pub common_deps: Vec<CommonDependency>,
    pub conflicts: Vec<ConflictingDependency>,
    pub unused_workspace_deps: Vec<String>,
}

/// The view of an optional string.
pub open spec fn opt_view(o: Option<String>) -> Option<Seq<char>> {
    match o {
        Some(s) => Some(s@),
        None => None,
    }
}

/// The mathematical identity of an equivalence key.
pub ghost struct KeyView {
    pub name: Seq<char>,
    pub section: DepSection,
    pub package: Option<Seq<char>>,
    pub registry: Option<Seq<char>>,
}

impl View for WorkspaceDepKey {
    type V = KeyView;

    open spec fn view(&self) -> KeyView {
        KeyView {
            name: self.name@,
            section: self.section,
            package: opt_view(self.package),
            registry: opt_view(self.registry),
        }
    }
}

/// One observation of a key: a version string and a default-features value,
/// declared either by a member (`member` is its name) or by the shared pool
/// (`member` is `None`).
pub ghost struct Obs {
    pub key: KeyView,
    pub version: Seq<char>,
    pub df: Option<bool>,
    pub member: Option<Seq<char>>,
}

/// The observation contributed by one shared-pool entry.
pub open spec fn ws_dep_obs(w: WorkspaceDep) -> Obs {
    Obs {
        key: KeyView {
            name: w.name@,
            section: w.section,
            package: opt_view(w.package),
            registry: opt_view(w.registry),
        },
        version: w.version@,
        df: w.default_features,
        member: None,
    }
}

/// The observation contributed by one member declaration.
pub open spec fn member_dep_obs(member: Seq<char>, d: DependencySpec) -> Obs {
    Obs {
        key: KeyView {
            name: d.name@,
            section: d.section,
            package: opt_view(d.package),
            registry: opt_view(d.registry),
        },
        version: d.version@,
        df: d.default_features,
        member: Some(member),
    }
}

/// The observations of one member, in declaration order.
pub open spec fn member_obs_seq(md: MemberDeps) -> Seq<Obs> {
    md.deps@.map_values(|d: DependencySpec| member_dep_obs(md.member@, d))
}

/// The observations of all members, laid end to end.
pub open spec fn flat_member_obs(mds: Seq<MemberDeps>) -> Seq<Obs>
    decreases mds.len(),
{
    if mds.len() == 0 {
        Seq::empty()
    } else {
        flat_member_obs(mds.drop_last()) + member_obs_seq(mds.last())
    }
}

/// Every observation of the workspace: the shared pool's entries first, then
/// each member's declarations.
pub open spec fn all_obs(data: WorkspaceData) -> Seq<Obs> {
    data.workspace_deps@.map_values(|w: WorkspaceDep| ws_dep_obs(w)) + flat_member_obs(
        data.member_deps@,
    )
}

/// The distinct values of a sequence, in first-occurrence order.
pub open spec fn dedup<A>(s: Seq<A>) -> Seq<A>
    decreases s.len(),
{
    if s.len() == 0 {
        Seq::empty()
    } else {
        let d = dedup(s.drop_last());
        if d.contains(s.last()) {
            d
        } else {
            d.push(s.last())
        }
    }
}

/// The observations that belong to one key, in order.
pub open spec fn obs_for_key(obs: Seq<Obs>, k: KeyView) -> Seq<Obs>
    decreases obs.len(),
{
    if obs.len() == 0 {
        Seq::empty()
    } else {
        obs_for_key(obs.drop_last(), k) + (if obs.last().key == k {
            seq![obs.last()]
        } else {
            Seq::empty()
        })
    }
}

/// The keys observed, in first-occurrence order.
pub open spec fn obs_keys(obs: Seq<Obs>) -> Seq<KeyView> {
    dedup(obs.map_values(|o: Obs| o.key))
}

/// A key's distinct version strings, in first-occurrence order.
pub open spec fn key_versions(obs: Seq<Obs>, k: KeyView) -> Seq<Seq<char>> {
    dedup(obs_for_key(obs, k).map_values(|o: Obs| o.version))
}

/// The members that declared one version of a key, in observation order.
pub open spec fn members_of_version(ok: Seq<Obs>, v: Seq<char>) -> Seq<Seq<char>>
    decreases ok.len(),
{
    if ok.len() == 0 {
        Seq::empty()
    } else {
        members_of_version(ok.drop_last(), v) + (if ok.last().version == v && ok.last().member
            is Some {
            seq![ok.last().member.unwrap()]
        } else {
            Seq::empty()
        })
    }
}

/// Whether the shared pool declares this version of the key.
pub open spec fn ws_has_version(ok: Seq<Obs>, v: Seq<char>) -> bool {
    exists|i: int| 0 <= i < ok.len() && (#[trigger] ok[i]).version == v && ok[i].member is None
}

/// The default-features values recorded against one version, in observation
/// order.
pub open spec fn dfs_of_version(ok: Seq<Obs>, v: Seq<char>) -> Seq<Option<bool>>
    decreases ok.len(),
{
    if ok.len() == 0 {
        Seq::empty()
    } else {
        dfs_of_version(ok.drop_last(), v) + (if ok.last().version == v {
            seq![ok.last().df]
        } else {
            Seq::empty()
        })
    }
}

/// Whether a set of recorded default-features values disagrees.
pub open spec fn df_values_conflict(vals: Seq<Option<bool>>) -> bool {
    exists|i: int, j: int| 0 <= i < vals.len() && 0 <= j < vals.len() && vals[i] != vals[j]
}

/// The common default-features value of agreeing observations: the single
/// recorded value, or `None` when the chosen version has no recorded value
/// at all.
pub open spec fn common_df(vals: Seq<Option<bool>>) -> Option<bool> {
    if vals.len() == 0 {
        None
    } else {
        vals[0]
    }
}

/// A key's distinct (version, default-features) observations, in
/// first-occurrence order.
pub open spec fn key_pairs(ok: Seq<Obs>) -> Seq<(Seq<char>, Option<bool>)> {
    dedup(ok.map_values(|o: Obs| (o.version, o.df)))
}

/// The members that declared one (version, default-features) observation.
pub open spec fn members_of_pair(ok: Seq<Obs>, v: Seq<char>, df: Option<bool>) -> Seq<Seq<char>>
    decreases ok.len(),
{
    if ok.len() == 0 {
        Seq::empty()
    } else {
        members_of_pair(ok.drop_last(), v, df) + (if ok.last().version == v && ok.last().df == df
            && ok.last().member is Some {
            seq![ok.last().member.unwrap()]
        } else {
            Seq::empty()
        })
    }
}

/// Whether the shared pool contributes one (version, default-features)
/// observation.
pub open spec fn ws_has_pair(ok: Seq<Obs>, v: Seq<char>, df: Option<bool>) -> bool {
    exists|i: int|
        0 <= i < ok.len() && (#[trigger] ok[i]).version == v && ok[i].df == df && ok[i].member
            is None
}

/// When a key resolves to a single (version, default-features) pair,
/// consolidation happens either because the shared pool already has the key
/// and a member uses it, or because enough members share it.
pub open spec fn should_consolidate_spec(
    has_workspace: bool,
    member_count: nat,
    min_members: nat,
) -> bool {
    (has_workspace && member_count > 0) || (!has_workspace && member_count >= min_members)
}

/// Decides consolidation eligibility from shared-pool presence and the
/// member count.
pub fn should_consolidate(has_workspace: bool, member_count: usize, min_members: usize) -> (r:
    bool)
    ensures
        r == should_consolidate_spec(has_workspace, member_count as nat, min_members as nat),
{
    (has_workspace && member_count > 0) || (!has_workspace && member_count >= min_members)
}

/// Decides whether recorded default-features values disagree.
pub fn has_default_features_conflict(values: &Vec<Option<bool>>) -> (r: bool)
    ensures
        r == df_values_conflict(values@),
{
    if values.len() == 0 {
        return false;
    }
    let first = values[0];
    let mut i: usize = 1;
    while i < values.len()
        invariant
            1 <= i <= values@.len(),
            first == values@[0],
            forall|j: int| 0 <= j < i ==> values@[j] == first,
        decreases values@.len() - i,
    {
        let same = match (first, values[i]) {
            (None, None) => true,
            (Some(a), Some(b)) => a == b,
            _ => false,
        };
        if !same {
            proof {
                assert(values@[i as int] != values@[0]);
            }
            return true;
        }
        i += 1;
    }
    proof {
        assert(!df_values_conflict(values@)) by {
            assert(forall|a: int, b: int|
                0 <= a < values@.len() && 0 <= b < values@.len() ==> values@[a] == values@[b]);
        }
    }
    false
}

impl VersionUsage {
    /// The usage's members as the resolver sees them: the member names, and
    /// the marker "workspace" when the shared pool also declares the
    /// version.
    pub fn to_member_list(&self) -> (r: Vec<String>)
        ensures
            views_of(r@) == views_of(self.members@) + (if self.in_workspace {
                seq!["workspace"@]
            } else {
                Seq::<Seq<char>>::empty()
            }),
    {
        let mut r: Vec<String> = Vec::new();
        let mut i: usize = 0;
        while i < self.members.len()
            invariant
                0 <= i <= self.members@.len(),
                views_of(r@) == views_of(self.members@.take(i as int)),
            decreases self.members@.len() - i,
        {
            let ghost r_old = r@;
            r.push(self.members[i].clone());
            proof {
                assert(views_of(r@) =~= views_of(r_old).push(self.members@[i as int]@));
                assert(views_of(self.members@.take(i + 1)) =~= views_of(
                    self.members@.take(i as int),
                ).push(self.members@[i as int]@));
            }
            i += 1;
        }
        proof {
            assert(self.members@.take(self.members@.len() as int) =~= self.members@);
        }
        if self.in_workspace {
            r.push(String::from_str("workspace"));
            proof {
                assert(views_of(r@) =~= views_of(self.members@) + seq!["workspace"@]);
            }
        } else {
            proof {
                assert(views_of(r@) =~= views_of(self.members@)
                    + Seq::<Seq<char>>::empty());
            }
        }
        r
    }
}

/// Converts a key's version entries into the resolver's input, each entry's
/// members extended with the "workspace" marker where the shared pool
/// declares the version.
pub fn version_map_to_member_lists(version_map: &Vec<VersionEntry>) -> (r: Vec<VersionMembers>)
    ensures
        r@.len() == version_map@.len(),
        forall|i: int|
            0 <= i < r@.len() ==> (#[trigger] r@[i]).version@ == version_map@[i].version@
                && views_of(r@[i].members@) == views_of(version_map@[i].usage.members@) + (
            if version_map@[i].usage.in_workspace {
                seq!["workspace"@]
            } else {
                Seq::<Seq<char>>::empty()
            }),
{
    let mut r: Vec<VersionMembers> = Vec::new();
    let mut i: usize = 0;
    while i < version_map.len()
        invariant
            0 <= i <= version_map@.len(),
            r@.len() == i,
            forall|j: int|
                0 <= j < i ==> (#[trigger] r@[j]).version@ == version_map@[j].version@
                    && views_of(r@[j].members@) == views_of(version_map@[j].usage.members@) + (
                if version_map@[j].usage.in_workspace {
                    seq!["workspace"@]
                } else {
                    Seq::<Seq<char>>::empty()
                }),
        decreases version_map@.len() - i,
    {
        let entry = VersionMembers {
            version: version_map[i].version.clone(),
            members: version_map[i].usage.to_member_list(),
        };
        r.push(entry);
        i += 1;
    }
    r
}

/// The member entries the engine keeps: one per extracted manifest with
/// explicit declarations, in manifest order; members without explicit
/// declarations contribute no entry.
pub open spec fn retained_member_deps(ms: Seq<MemberManifest>) -> Seq<MemberDeps>
    decreases ms.len(),
{
    if ms.len() == 0 {
        Seq::empty()
    } else {
        retained_member_deps(ms.drop_last()) + (if ms.last().deps@.len() > 0 {
            seq![MemberDeps { member: ms.last().member, deps: ms.last().deps }]
        } else {
            Seq::<MemberDeps>::empty()
        })
    }
}

/// Assembles the engine's input from the extracted shared-pool entries and
/// the extracted member manifests: members without explicit declarations are
/// dropped, and the already-shared references of every member are collected
/// into one list.
pub fn parse_workspace_data(workspace_deps: Vec<WorkspaceDep>, members: Vec<MemberManifest>) -> (r:
    WorkspaceData)
    ensures
        r.workspace_deps == workspace_deps,
        r.member_deps@ == retained_member_deps(members@),
        flat_member_obs(r.member_deps@) == flat_manifest_obs(members@),
        r.workspace_refs@.map_values(|p: (String, DepSection)| (p.0@, p.1)) == flat_refs(
            members@,
        ),
{
    let ghost orig = members@;
    let mut rest = members;
    let mut member_deps: Vec<MemberDeps> = Vec::new();
    let mut workspace_refs: Vec<(String, DepSection)> = Vec::new();
    proof {
        assert(orig.take(0) =~= Seq::<MemberManifest>::empty());
        assert(flat_member_obs(member_deps@) =~= flat_manifest_obs(orig.take(0)));
        assert(workspace_refs@.map_values(|p: (String, DepSection)| (p.0@, p.1)) =~= flat_refs(
            orig.take(0),
        ));
    }
    while rest.len() > 0
        invariant
            rest@.len() <= orig.len(),
            rest@ == orig.skip(orig.len() - rest@.len()),
            member_deps@ == retained_member_deps(orig.take(orig.len() - rest@.len())),
            flat_member_obs(member_deps@) == flat_manifest_obs(
                orig.take(orig.len() - rest@.len()),
            ),
            workspace_refs@.map_values(|p: (String, DepSection)| (p.0@, p.1)) == flat_refs(
                orig.take(orig.len() - rest@.len()),
            ),
        decreases rest@.len(),
    {
        let ghost i = orig.len() - rest@.len();
        let mut m = rest.remove(0);
        proof {
            assert(orig.skip(i as int)[0] == orig[i as int]);
            assert(m == orig[i as int]);
            assert(rest@ =~= orig.skip(i + 1));
            assert(orig.take(i + 1).drop_last() =~= orig.take(i as int));
            assert(orig.take(i + 1).last() == orig[i as int]);
        }
        workspace_refs.append(&mut m.workspace_refs);
        let has_deps = m.deps.len() > 0;
        proof {
            let prev = flat_manifest_obs(orig.take(i as int));
            let added_obs = orig[i as int].deps@.map_values(
                |d: DependencySpec| member_dep_obs(orig[i as int].member@, d),
            );
            assert(flat_manifest_obs(orig.take(i + 1)) == prev + added_obs);
            if !has_deps {
                assert(added_obs =~= Seq::<Obs>::empty());
                assert(flat_member_obs(member_deps@) =~= prev + added_obs);
                assert(member_deps@ =~= retained_member_deps(orig.take(i + 1)));
            }
        }
        if has_deps {
            let entry = MemberDeps { member: m.member, deps: m.deps };
            proof {
                assert(member_obs_seq(entry) =~= orig[i as int].deps@.map_values(
                    |d: DependencySpec| member_dep_obs(orig[i as int].member@, d),
                ));
            }
            let ghost md_old = member_deps@;
            member_deps.push(entry);
            proof {
                assert(member_deps@.drop_last() =~= md_old);
                assert(flat_member_obs(member_deps@) == flat_member_obs(md_old)
                    + member_obs_seq(entry));
                assert(entry == MemberDeps {
                    member: orig[i as int].member,
                    deps: orig[i as int].deps,
                });
                assert(member_deps@ =~= retained_member_deps(orig.take(i + 1)));
            }
        }
        proof {
            let refs_view = |p: (String, DepSection)| (p.0@, p.1);
            assert(workspace_refs@.map_values(refs_view) =~= flat_refs(orig.take(i + 1)));
        }
    }
    proof {
        assert(orig.take(orig.len() as int) =~= orig);
    }
    WorkspaceData { workspace_deps, member_deps, workspace_refs }
}

/// The member observations of the extracted manifests, in order.
pub open spec fn flat_manifest_obs(ms: Seq<MemberManifest>) -> Seq<Obs>
    decreases ms.len(),
{
    if ms.len() == 0 {
        Seq::empty()
    } else {
        flat_manifest_obs(ms.drop_last()) + ms.last().deps@.map_values(
            |d: DependencySpec| member_dep_obs(ms.last().member@, d),
        )
    }
}

/// The already-shared references of the extracted manifests, laid end to
/// end.
pub open spec fn flat_refs(ms: Seq<MemberManifest>) -> Seq<(Seq<char>, DepSection)>
    decreases ms.len(),
{
    if ms.len() == 0 {
        Seq::empty()
    } else {
        flat_refs(ms.drop_last()) + ms.last().workspace_refs@.map_values(
            |p: (String, DepSection)| (p.0@, p.1),
        )
    }
}

/// The view of one resolver entry: a version string and its member list.
pub ghost struct PairMembersView {
    pub version: Seq<char>,
    pub members: Seq<Seq<char>>,
}

/// The view of a `VersionMembers` entry.
pub open spec fn vm_view(vm: VersionMembers) -> PairMembersView {
    PairMembersView { version: vm.version@, members: views_of(vm.members@) }
}

/// The view of a consolidated dependency.
pub ghost struct CommonView {
    pub name: Seq<char>,
    pub version: Seq<char>,
    pub section: DepSection,
    pub members: Seq<Seq<char>>,
    pub package: Option<Seq<char>>,
    pub registry: Option<Seq<char>>,
    pub default_features: Option<bool>,
    pub resolved_from: Option<Seq<PairMembersView>>,
}

/// The view of a `CommonDependency`.
pub open spec fn common_view(c: CommonDependency) -> CommonView {
    CommonView {
        name: c.name@,
        version: c.version@,
        section: c.section,
        members: views_of(c.members@),
        package: opt_view(c.package),
        registry: opt_view(c.registry),
        default_features: c.default_features,
        resolved_from: match c.resolved_from {
            Some(v) => Some(v@.map_values(|vm: VersionMembers| vm_view(vm))),
            None => None,
        },
    }
}

/// The view of one reported (version, default-features) observation.
pub ghost struct SpecView {
    pub version: Seq<char>,
    pub default_features: Option<bool>,
    pub members: Seq<Seq<char>>,
}

/// The view of a `VersionSpec`.
pub open spec fn version_spec_view(s: VersionSpec) -> SpecView {
    SpecView {
        version: s.version@,
        default_features: s.default_features,
        members: views_of(s.members@),
    }
}

/// The view of a reported conflict.
pub ghost struct ConflictView {
    pub name: Seq<char>,
    pub section: DepSection,
    pub version_specs: Seq<SpecView>,
    pub conflict_types: Seq<ConflictType>,
}

/// The view of a `ConflictingDependency`.
pub open spec fn conflict_dep_view(c: ConflictingDependency) -> ConflictView {
    ConflictView {
        name: c.name@,
        section: c.section,
        version_specs: c.version_specs@.map_values(|s: VersionSpec| version_spec_view(s)),
        conflict_types: c.conflict_types@,
    }
}

/// A usage's member list as reported: the members, then the marker
/// "workspace" when the shared pool participates.
pub open spec fn usage_member_list(members: Seq<Seq<char>>, in_ws: bool) -> Seq<Seq<char>> {
    members + (if in_ws {
        seq!["workspace"@]
    } else {
        Seq::<Seq<char>>::empty()
    })
}

/// Whether the shared pool declares the key at all.
pub open spec fn key_has_ws(ok: Seq<Obs>) -> bool {
    exists|i: int| 0 <= i < ok.len() && (#[trigger] ok[i]).member is None
}

/// A key's members, grouped by distinct version, versions in
/// first-occurrence order and members in observation order within each.
pub open spec fn grouped_members(ok: Seq<Obs>, vs: Seq<Seq<char>>) -> Seq<Seq<char>>
    decreases vs.len(),
{
    if vs.len() == 0 {
        Seq::empty()
    } else {
        grouped_members(ok, vs.drop_last()) + members_of_version(ok, vs.last())
    }
}

/// The resolver's input for a key: each distinct version with its member
/// list, the shared pool appearing as the member "workspace".
pub open spec fn resolver_input(ok: Seq<Obs>, vs: Seq<Seq<char>>) -> Seq<PairMembersView> {
    vs.map_values(
        |v: Seq<char>|
            PairMembersView {
                version: v,
                members: usage_member_list(members_of_version(ok, v), ws_has_version(ok, v)),
            },
    )
}

/// The conflict reported for a key: every distinct (version,
/// default-features) observation with its members, and the given conflict
/// kinds.
pub open spec fn key_conflict(obs: Seq<Obs>, k: KeyView, types: Seq<ConflictType>) -> ConflictView {
    let ok = obs_for_key(obs, k);
    ConflictView {
        name: k.name,
        section: k.section,
        version_specs: key_pairs(ok).map_values(
            |p: (Seq<char>, Option<bool>)|
                SpecView {
                    version: p.0,
                    default_features: p.1,
                    members: usage_member_list(
                        members_of_pair(ok, p.0, p.1),
                        ws_has_pair(ok, p.0, p.1),
                    ),
                },
        ),
        conflict_types: types,
    }
}

/// What the engine decides for one equivalence class.
pub ghost enum KeyOutcome {
    /// Excluded by name, or not worth consolidating.
    Skipped,
    /// Consolidated.
    Common(CommonView),
    /// Reported as irreconcilable.
    Conflict(ConflictView),
}

/// The decision for one equivalence class: excluded names are skipped; a
/// single observed version is checked for default-features agreement and
/// eligibility; several observed versions go through the resolution policy
/// first, a failure becoming a version-resolution conflict (with a
/// default-features kind added when those values disagree anywhere under
/// the key).
pub open spec fn key_outcome(
    obs: Seq<Obs>,
    k: KeyView,
    exclude: Seq<Seq<char>>,
    min_members: nat,
    strategy: VersionResolutionStrategy,
) -> KeyOutcome {
    if exclude.contains(k.name) {
        KeyOutcome::Skipped
    } else {
        let ok = obs_for_key(obs, k);
        let vs = key_versions(obs, k);
        let has_ws = key_has_ws(ok);
        let all_mem = grouped_members(ok, vs);
        if vs.len() == 1 {
            let dfs = dfs_of_version(ok, vs[0]);
            if df_values_conflict(dfs) {
                KeyOutcome::Conflict(key_conflict(obs, k, seq![ConflictType::DefaultFeatures]))
            } else if should_consolidate_spec(has_ws, all_mem.len(), min_members) {
                KeyOutcome::Common(
                    CommonView {
                        name: k.name,
                        version: vs[0],
                        section: k.section,
                        members: all_mem,
                        package: k.package,
                        registry: k.registry,
                        default_features: common_df(dfs),
                        resolved_from: None,
                    },
                )
            } else {
                KeyOutcome::Skipped
            }
        } else {
            match resolve_spec(vs, strategy) {
                Ok(rv) => {
                    let dfs = dfs_of_version(ok, rv);
                    if df_values_conflict(dfs) {
                        KeyOutcome::Conflict(
                            key_conflict(obs, k, seq![ConflictType::DefaultFeatures]),
                        )
                    } else if should_consolidate_spec(has_ws, all_mem.len(), min_members) {
                        KeyOutcome::Common(
                            CommonView {
                                name: k.name,
                                version: rv,
                                section: k.section,
                                members: all_mem,
                                package: k.package,
                                registry: k.registry,
                                default_features: common_df(dfs),
                                resolved_from: Some(resolver_input(ok, vs)),
                            },
                        )
                    } else {
                        KeyOutcome::Skipped
                    }
                },
                Err(_) => {
                    let all_dfs = ok.map_values(|o: Obs| o.df);
                    let types = if df_values_conflict(all_dfs) {
                        seq![ConflictType::VersionResolution, ConflictType::DefaultFeatures]
                    } else {
                        seq![ConflictType::VersionResolution]
                    };
                    KeyOutcome::Conflict(key_conflict(obs, k, types))
                },
            }
        }
    }
}

/// The consolidated dependencies of the keys, in key order.
pub open spec fn commons_spec(
    obs: Seq<Obs>,
    keys: Seq<KeyView>,
    exclude: Seq<Seq<char>>,
    min_members: nat,
    strategy: VersionResolutionStrategy,
) -> Seq<CommonView>
    decreases keys.len(),
{
    if keys.len() == 0 {
        Seq::empty()
    } else {
        commons_spec(obs, keys.drop_last(), exclude, min_members, strategy) + (match key_outcome(
            obs,
            keys.last(),
            exclude,
            min_members,
            strategy,
        ) {
            KeyOutcome::Common(c) => seq![c],
            _ => Seq::<CommonView>::empty(),
        })
    }
}

/// The reported conflicts of the keys, in key order.
pub open spec fn conflicts_spec(
    obs: Seq<Obs>,
    keys: Seq<KeyView>,
    exclude: Seq<Seq<char>>,
    min_members: nat,
    strategy: VersionResolutionStrategy,
) -> Seq<ConflictView>
    decreases keys.len(),
{
    if keys.len() == 0 {
        Seq::empty()
    } else {
        conflicts_spec(obs, keys.drop_last(), exclude, min_members, strategy) + (match key_outcome(
            obs,
            keys.last(),
            exclude,
            min_members,
            strategy,
        ) {
            KeyOutcome::Conflict(c) => seq![c],
            _ => Seq::<ConflictView>::empty(),
        })
    }
}

/// Whether a shared-pool entry's name is used: either a consolidated
/// dependency or an already-shared reference carries it. The section is
/// deliberately not distinguished here: unused detection is a set
/// difference over dependency names alone, matching the coarser
/// granularity of the pool's naming.
pub open spec fn used_name(
    commons: Seq<CommonView>,
    refs: Seq<(Seq<char>, DepSection)>,
    name: Seq<char>,
) -> bool {
    (exists|i: int| 0 <= i < commons.len() && (#[trigger] commons[i]).name == name) || (
    exists|i: int| 0 <= i < refs.len() && (#[trigger] refs[i]).0 == name)
}

/// The names of the shared-pool entries that nothing uses, in pool order,
/// each name listed once.
pub open spec fn unused_spec(
    ws: Seq<WorkspaceDep>,
    commons: Seq<CommonView>,
    refs: Seq<(Seq<char>, DepSection)>,
) -> Seq<Seq<char>>
    decreases ws.len(),
{
    if ws.len() == 0 {
        Seq::empty()
    } else {
        let prior = unused_spec(ws.drop_last(), commons, refs);
        prior + (if !used_name(commons, refs, ws.last().name@) && !prior.contains(
            ws.last().name@,
        ) {
            seq![ws.last().name@]
        } else {
            Seq::<Seq<char>>::empty()
        })
    }
}

/// Whether a member-manifest field survives the conversion to a shared
/// reference: everything but the fields that move into the pool entry.
pub open spec fn preserved_field(key: Seq<char>) -> bool {
    key != "version"@ && key != "package"@ && key != "registry"@ && key != "default-features"@
}

/// Decides whether a member-manifest field survives the conversion to a
/// shared reference.
pub fn should_preserve_field(key: &str) -> (r: bool)
    ensures
        r == preserved_field(key@),
{
    !(str_eq(key, "version") || str_eq(key, "package") || str_eq(key, "registry") || str_eq(
        key,
        "default-features",
    ))
}

/// Clones an optional string.
fn opt_str_clone(o: &Option<String>) -> (r: Option<String>)
    ensures
        opt_view(r) == opt_view(*o),
{
    match o {
        Some(s) => Some(s.clone()),
        None => None,
    }
}

/// Decides equality of two optional strings.
fn opt_str_eq(a: &Option<String>, b: &Option<String>) -> (r: bool)
    ensures
        r == (opt_view(*a) == opt_view(*b)),
{
    match (a, b) {
        (None, None) => true,
        (Some(x), Some(y)) => str_eq(x.as_str(), y.as_str()),
        _ => false,
    }
}

/// Clones an equivalence key.
fn clone_key(k: &WorkspaceDepKey) -> (r: WorkspaceDepKey)
    ensures
        r@ == k@,
{
    WorkspaceDepKey {
        name: k.name.clone(),
        section: k.section,
        package: opt_str_clone(&k.package),
        registry: opt_str_clone(&k.registry),
    }
}

/// Decides equality of two equivalence keys.
fn key_eq(a: &WorkspaceDepKey, b: &WorkspaceDepKey) -> (r: bool)
    ensures
        r == (a@ == b@),
{
    let r = str_eq(a.name.as_str(), b.name.as_str()) && a.section == b.section && opt_str_eq(
        &a.package,
        &b.package,
    ) && opt_str_eq(&a.registry, &b.registry);
    proof {
        if r {
            assert(a@ == b@);
        } else {
            assert(a@ != b@);
        }
    }
    r
}

/// One observation as the engine's loops see it.
struct Observation {
    key: WorkspaceDepKey,
    version: String,
    df: Option<bool>,
    member: Option<String>,
}

/// The view of one observation.
spec fn obs_view(o: Observation) -> Obs {
    Obs { key: o.key@, version: o.version@, df: o.df, member: opt_view(o.member) }
}

/// The views of a sequence of observations.
spec fn obs_views(s: Seq<Observation>) -> Seq<Obs> {
    s.map_values(|o: Observation| obs_view(o))
}

/// Clones an observation.
fn clone_observation(o: &Observation) -> (r: Observation)
    ensures
        obs_view(r) == obs_view(*o),
{
    Observation {
        key: clone_key(&o.key),
        version: o.version.clone(),
        df: o.df,
        member: opt_str_clone(&o.member),
    }
}

/// Flattens the workspace data into one observation list: the shared pool's
/// entries first, then each member's declarations.
fn collect_observations(data: &WorkspaceData) -> (r: Vec<Observation>)
    ensures
        obs_views(r@) == all_obs(*data),
{
    let mut r: Vec<Observation> = Vec::new();
    let ghost ws_part = data.workspace_deps@.map_values(|w: WorkspaceDep| ws_dep_obs(w));
    let mut i: usize = 0;
    proof {
        assert(obs_views(r@) =~= ws_part.take(0));
    }
    while i < data.workspace_deps.len()
        invariant
            0 <= i <= data.workspace_deps@.len(),
            ws_part == data.workspace_deps@.map_values(|w: WorkspaceDep| ws_dep_obs(w)),
            obs_views(r@) == ws_part.take(i as int),
        decreases data.workspace_deps@.len() - i,
    {
        let w = &data.workspace_deps[i];
        let o = Observation {
            key: WorkspaceDepKey {
                name: w.name.clone(),
                section: w.section,
                package: opt_str_clone(&w.package),
                registry: opt_str_clone(&w.registry),
            },
            version: w.version.clone(),
            df: w.default_features,
            member: None,
        };
        proof {
            assert(obs_view(o) == ws_dep_obs(data.workspace_deps@[i as int]));
        }
        let ghost r_old = obs_views(r@);
        r.push(o);
        proof {
            assert(obs_views(r@) =~= r_old.push(ws_dep_obs(data.workspace_deps@[i as int])));
            assert(ws_part.take(i + 1) =~= ws_part.take(i as int).push(ws_part[i as int]));
            assert(ws_part[i as int] == ws_dep_obs(data.workspace_deps@[i as int]));
        }
        i += 1;
    }
    proof {
        assert(ws_part.take(data.workspace_deps@.len() as int) =~= ws_part);
    }
    let mut mi: usize = 0;
    while mi < data.member_deps.len()
        invariant
            0 <= mi <= data.member_deps@.len(),
            ws_part == data.workspace_deps@.map_values(|w: WorkspaceDep| ws_dep_obs(w)),
            obs_views(r@) == ws_part + flat_member_obs(data.member_deps@.take(mi as int)),
        decreases data.member_deps@.len() - mi,
    {
        let md = &data.member_deps[mi];
        let ghost md_obs = member_obs_seq(data.member_deps@[mi as int]);
        let ghost r_mid = obs_views(r@);
        let mut di: usize = 0;
        while di < md.deps.len()
            invariant
                0 <= mi < data.member_deps@.len(),
                md == data.member_deps@[mi as int],
                md_obs == member_obs_seq(data.member_deps@[mi as int]),
                0 <= di <= md.deps@.len(),
                md_obs.len() == md.deps@.len(),
                obs_views(r@) == r_mid + md_obs.take(di as int),
            decreases md.deps@.len() - di,
        {
            let d = &md.deps[di];
            let o = Observation {
                key: WorkspaceDepKey {
                    name: d.name.clone(),
                    section: d.section,
                    package: opt_str_clone(&d.package),
                    registry: opt_str_clone(&d.registry),
                },
                version: d.version.clone(),
                df: d.default_features,
                member: Some(md.member.clone()),
            };
            proof {
                assert(md_obs[di as int] == member_dep_obs(
                    data.member_deps@[mi as int].member@,
                    data.member_deps@[mi as int].deps@[di as int],
                ));
                assert(obs_view(o) == md_obs[di as int]);
            }
            let ghost r_old = obs_views(r@);
            r.push(o);
            proof {
                assert(obs_views(r@) =~= r_old.push(md_obs[di as int]));
                assert(md_obs.take(di + 1) =~= md_obs.take(di as int).push(md_obs[di as int]));
                assert(obs_views(r@) =~= r_mid + md_obs.take(di + 1));
            }
            di += 1;
        }
        proof {
            assert(md_obs.take(md.deps@.len() as int) =~= md_obs);
            assert(data.member_deps@.take(mi + 1).drop_last() =~= data.member_deps@.take(
                mi as int,
            ));
            assert(data.member_deps@.take(mi + 1).last() == data.member_deps@[mi as int]);
            assert(obs_views(r@) =~= ws_part + flat_member_obs(data.member_deps@.take(mi + 1)));
        }
        mi += 1;
    }
    proof {
        assert(data.member_deps@.take(data.member_deps@.len() as int) =~= data.member_deps@);
    }
    r
}

/// Decides whether a key list holds a key.
fn keys_contain(v: &Vec<WorkspaceDepKey>, k: &WorkspaceDepKey) -> (r: bool)
    ensures
        r == v@.map_values(|x: WorkspaceDepKey| x@).contains(k@),
{
    let ghost kv = v@.map_values(|x: WorkspaceDepKey| x@);
    let mut i: usize = 0;
    while i < v.len()
        invariant
            kv == v@.map_values(|x: WorkspaceDepKey| x@),
            0 <= i <= v@.len(),
            forall|j: int| 0 <= j < i ==> kv[j] != k@,
        decreases v@.len() - i,
    {
        if key_eq(&v[i], k) {
            proof {
                assert(kv[i as int] == k@);
            }
            return true;
        }
        i += 1;
    }
    false
}

/// The distinct keys observed, in first-occurrence order.
fn distinct_keys(obs: &Vec<Observation>) -> (r: Vec<WorkspaceDepKey>)
    ensures
        r@.map_values(|x: WorkspaceDepKey| x@) == obs_keys(obs_views(obs@)),
{
    let ghost kseq = obs_views(obs@).map_values(|o: Obs| o.key);
    let mut r: Vec<WorkspaceDepKey> = Vec::new();
    let mut i: usize = 0;
    proof {
        assert(r@.map_values(|x: WorkspaceDepKey| x@) =~= dedup(kseq.take(0)));
    }
    while i < obs.len()
        invariant
            kseq == obs_views(obs@).map_values(|o: Obs| o.key),
            kseq.len() == obs@.len(),
            0 <= i <= obs@.len(),
            r@.map_values(|x: WorkspaceDepKey| x@) == dedup(kseq.take(i as int)),
        decreases obs@.len() - i,
    {
        proof {
            assert(kseq.take(i + 1).drop_last() =~= kseq.take(i as int));
            assert(kseq.take(i + 1).last() == kseq[i as int]);
            assert(kseq[i as int] == obs@[i as int].key@);
        }
        let ghost r_old = r@;
        if !keys_contain(&r, &obs[i].key) {
            r.push(clone_key(&obs[i].key));
            proof {
                assert(r@.map_values(|x: WorkspaceDepKey| x@) =~= r_old.map_values(
                    |x: WorkspaceDepKey| x@,
                ).push(obs@[i as int].key@));
            }
        }
        i += 1;
    }
    proof {
        assert(kseq.take(obs@.len() as int) =~= kseq);
    }
    r
}

/// The observations that belong to one key, in order.
fn obs_for_key_exec(obs: &Vec<Observation>, key: &WorkspaceDepKey) -> (r: Vec<Observation>)
    ensures
        obs_views(r@) == obs_for_key(obs_views(obs@), key@),
{
    let ghost ov = obs_views(obs@);
    let mut r: Vec<Observation> = Vec::new();
    let mut i: usize = 0;
    proof {
        assert(obs_views(r@) =~= obs_for_key(ov.take(0), key@));
    }
    while i < obs.len()
        invariant
            ov == obs_views(obs@),
            ov.len() == obs@.len(),
            0 <= i <= obs@.len(),
            obs_views(r@) == obs_for_key(ov.take(i as int), key@),
        decreases obs@.len() - i,
    {
        proof {
            assert(ov.take(i + 1).drop_last() =~= ov.take(i as int));
            assert(ov.take(i + 1).last() == ov[i as int]);
            assert(ov[i as int] == obs_view(obs@[i as int]));
        }
        if key_eq(&obs[i].key, key) {
            r.push(clone_observation(&obs[i]));
            proof {
                assert(obs_views(r@) =~= obs_for_key(ov.take(i + 1), key@));
            }
        } else {
            proof {
                assert(obs_views(r@) =~= obs_for_key(ov.take(i + 1), key@));
            }
        }
        i += 1;
    }
    proof {
        assert(ov.take(obs@.len() as int) =~= ov);
    }
    r
}

/// The distinct version strings of a key's observations, in first-occurrence
/// order.
fn distinct_versions(ok: &Vec<Observation>) -> (r: Vec<String>)
    ensures
        views_of(r@) == dedup(obs_views(ok@).map_values(|o: Obs| o.version)),
{
    let ghost vseq = obs_views(ok@).map_values(|o: Obs| o.version);
    let mut r: Vec<String> = Vec::new();
    let mut i: usize = 0;
    proof {
        assert(views_of(r@) =~= dedup(vseq.take(0)));
    }
    while i < ok.len()
        invariant
            vseq == obs_views(ok@).map_values(|o: Obs| o.version),
            vseq.len() == ok@.len(),
            0 <= i <= ok@.len(),
            views_of(r@) == dedup(vseq.take(i as int)),
        decreases ok@.len() - i,
    {
        proof {
            assert(vseq.take(i + 1).drop_last() =~= vseq.take(i as int));
            assert(vseq.take(i + 1).last() == vseq[i as int]);
            assert(vseq[i as int] == ok@[i as int].version@);
        }
        let ghost r_old = r@;
        let found = contains_string(&r, ok[i].version.as_str());
        proof {
            crate::strutil::lemma_views_contain(r@, ok@[i as int].version@);
        }
        if !found {
            r.push(ok[i].version.clone());
            proof {
                assert(views_of(r@) =~= views_of(r_old).push(ok@[i as int].version@));
            }
        }
        i += 1;
    }
    proof {
        assert(vseq.take(ok@.len() as int) =~= vseq);
    }
    r
}

/// Whether the shared pool contributed any of these observations.
fn key_has_ws_exec(ok: &Vec<Observation>) -> (r: bool)
    ensures
        r == key_has_ws(obs_views(ok@)),
{
    let ghost okv = obs_views(ok@);
    let mut i: usize = 0;
    while i < ok.len()
        invariant
            okv == obs_views(ok@),
            okv.len() == ok@.len(),
            0 <= i <= ok@.len(),
            forall|j: int| 0 <= j < i ==> !((#[trigger] okv[j]).member is None),
        decreases ok@.len() - i,
    {
        if ok[i].member.is_none() {
            proof {
                assert(okv[i as int].member is None);
            }
            return true;
        }
        i += 1;
    }
    false
}

/// The members that declared one version, and whether the shared pool
/// declares it.
fn members_ws_for_version(ok: &Vec<Observation>, v: &str) -> (r: (Vec<String>, bool))
    ensures
        views_of(r.0@) == members_of_version(obs_views(ok@), v@),
        r.1 == ws_has_version(obs_views(ok@), v@),
{
    let ghost okv = obs_views(ok@);
    let mut members: Vec<String> = Vec::new();
    let mut in_ws = false;
    let mut i: usize = 0;
    proof {
        assert(views_of(members@) =~= members_of_version(okv.take(0), v@));
    }
    while i < ok.len()
        invariant
            okv == obs_views(ok@),
            okv.len() == ok@.len(),
            0 <= i <= ok@.len(),
            views_of(members@) == members_of_version(okv.take(i as int), v@),
            in_ws == ws_has_version(okv.take(i as int), v@),
        decreases ok@.len() - i,
    {
        proof {
            assert(okv.take(i + 1).drop_last() =~= okv.take(i as int));
            assert(okv.take(i + 1).last() == okv[i as int]);
            assert(okv[i as int] == obs_view(ok@[i as int]));
        }
        let ghost m_old = members@;
        let ghost ws_old = in_ws;
        if str_eq(ok[i].version.as_str(), v) {
            match &ok[i].member {
                Some(m) => {
                    members.push(m.clone());
                    proof {
                        assert(views_of(members@) =~= views_of(m_old).push(
                            okv[i as int].member.unwrap(),
                        ));
                    }
                },
                None => {
                    in_ws = true;
                },
            }
        }
        proof {
            assert(views_of(members@) =~= members_of_version(okv.take(i + 1), v@));
            assert(in_ws == ws_has_version(okv.take(i + 1), v@)) by {
                if in_ws && !ws_old {
                    assert(okv.take(i + 1)[i as int].version == v@ && okv.take(
                        i + 1,
                    )[i as int].member is None);
                } else if ws_old {
                    let w = choose|j: int|
                        0 <= j < i && (#[trigger] okv.take(i as int)[j]).version == v@ && okv.take(
                            i as int,
                        )[j].member is None;
                    assert(okv.take(i + 1)[w].version == v@ && okv.take(i + 1)[w].member is None);
                } else {
                    assert(forall|j: int|
                        0 <= j < i + 1 ==> !((#[trigger] okv.take(i + 1)[j]).version == v@
                            && okv.take(i + 1)[j].member is None)) by {
                        assert(forall|j: int|
                            0 <= j < i ==> okv.take(i + 1)[j] == okv.take(i as int)[j]);
                    }
                }
            }
        }
        i += 1;
    }
    proof {
        assert(okv.take(ok@.len() as int) =~= okv);
    }
    (members, in_ws)
}

/// The default-features values recorded against one version, in observation
/// order.
fn dfs_for_version(ok: &Vec<Observation>, v: &str) -> (r: Vec<Option<bool>>)
    ensures
        r@ == dfs_of_version(obs_views(ok@), v@),
{
    let ghost okv = obs_views(ok@);
    let mut r: Vec<Option<bool>> = Vec::new();
    let mut i: usize = 0;
    proof {
        assert(r@ =~= dfs_of_version(okv.take(0), v@));
    }
    while i < ok.len()
        invariant
            okv == obs_views(ok@),
            okv.len() == ok@.len(),
            0 <= i <= ok@.len(),
            r@ == dfs_of_version(okv.take(i as int), v@),
        decreases ok@.len() - i,
    {
        proof {
            assert(okv.take(i + 1).drop_last() =~= okv.take(i as int));
            assert(okv.take(i + 1).last() == okv[i as int]);
            assert(okv[i as int] == obs_view(ok@[i as int]));
        }
        if str_eq(ok[i].version.as_str(), v) {
            r.push(ok[i].df);
        }
        proof {
            assert(r@ =~= dfs_of_version(okv.take(i + 1), v@));
        }
        i += 1;
    }
    proof {
        assert(okv.take(ok@.len() as int) =~= okv);
    }
    r
}

/// Every recorded default-features value of the key, in observation order.
fn all_dfs_exec(ok: &Vec<Observation>) -> (r: Vec<Option<bool>>)
    ensures
        r@ == obs_views(ok@).map_values(|o: Obs| o.df),
{
    let ghost okv = obs_views(ok@);
    let mut r: Vec<Option<bool>> = Vec::new();
    let mut i: usize = 0;
    while i < ok.len()
        invariant
            okv == obs_views(ok@),
            okv.len() == ok@.len(),
            0 <= i <= ok@.len(),
            r@ == okv.map_values(|o: Obs| o.df).take(i as int),
        decreases ok@.len() - i,
    {
        r.push(ok[i].df);
        proof {
            assert(r@ =~= okv.map_values(|o: Obs| o.df).take(i + 1));
        }
        i += 1;
    }
    proof {
        assert(okv.map_values(|o: Obs| o.df).take(ok@.len() as int) =~= okv.map_values(
            |o: Obs| o.df,
        ));
    }
    r
}

/// Decides equality of two optional booleans.
fn opt_bool_eq(a: Option<bool>, b: Option<bool>) -> (r: bool)
    ensures
        r == (a == b),
{
    match (a, b) {
        (None, None) => true,
        (Some(x), Some(y)) => x == y,
        _ => false,
    }
}

/// Decides whether a pair list holds a (version, default-features) pair.
fn pairs_contain(v: &Vec<(String, Option<bool>)>, version: &str, df: Option<bool>) -> (r: bool)
    ensures
        r == v@.map_values(|p: (String, Option<bool>)| (p.0@, p.1)).contains((version@, df)),
{
    let ghost pv = v@.map_values(|p: (String, Option<bool>)| (p.0@, p.1));
    let mut i: usize = 0;
    while i < v.len()
        invariant
            pv == v@.map_values(|p: (String, Option<bool>)| (p.0@, p.1)),
            0 <= i <= v@.len(),
            forall|j: int| 0 <= j < i ==> pv[j] != (version@, df),
        decreases v@.len() - i,
    {
        if str_eq(v[i].0.as_str(), version) && opt_bool_eq(v[i].1, df) {
            proof {
                assert(pv[i as int] == (version@, df));
            }
            return true;
        }
        i += 1;
    }
    false
}

/// The distinct (version, default-features) observations of a key, in
/// first-occurrence order.
fn distinct_pairs(ok: &Vec<Observation>) -> (r: Vec<(String, Option<bool>)>)
    ensures
        r@.map_values(|p: (String, Option<bool>)| (p.0@, p.1)) == key_pairs(obs_views(ok@)),
{
    let ghost pseq = obs_views(ok@).map_values(|o: Obs| (o.version, o.df));
    let mut r: Vec<(String, Option<bool>)> = Vec::new();
    let mut i: usize = 0;
    proof {
        assert(r@.map_values(|p: (String, Option<bool>)| (p.0@, p.1)) =~= dedup(pseq.take(0)));
    }
    while i < ok.len()
        invariant
            pseq == obs_views(ok@).map_values(|o: Obs| (o.version, o.df)),
            pseq.len() == ok@.len(),
            0 <= i <= ok@.len(),
            r@.map_values(|p: (String, Option<bool>)| (p.0@, p.1)) == dedup(pseq.take(i as int)),
        decreases ok@.len() - i,
    {
        proof {
            assert(pseq.take(i + 1).drop_last() =~= pseq.take(i as int));
            assert(pseq.take(i + 1).last() == pseq[i as int]);
            assert(pseq[i as int] == (ok@[i as int].version@, ok@[i as int].df));
        }
        let ghost r_old = r@;
        if !pairs_contain(&r, ok[i].version.as_str(), ok[i].df) {
            r.push((ok[i].version.clone(), ok[i].df));
            proof {
                assert(r@.map_values(|p: (String, Option<bool>)| (p.0@, p.1)) =~= r_old.map_values(
                    |p: (String, Option<bool>)| (p.0@, p.1),
                ).push(pseq[i as int]));
            }
        }
        i += 1;
    }
    proof {
        assert(pseq.take(ok@.len() as int) =~= pseq);
    }
    r
}

/// The members that declared one (version, default-features) observation,
/// and whether the shared pool contributed it.
fn members_ws_for_pair(ok: &Vec<Observation>, v: &str, df: Option<bool>) -> (r: (Vec<String>, bool))
    ensures
        views_of(r.0@) == members_of_pair(obs_views(ok@), v@, df),
        r.1 == ws_has_pair(obs_views(ok@), v@, df),
{
    let ghost okv = obs_views(ok@);
    let mut members: Vec<String> = Vec::new();
    let mut in_ws = false;
    let mut i: usize = 0;
    proof {
        assert(views_of(members@) =~= members_of_pair(okv.take(0), v@, df));
    }
    while i < ok.len()
        invariant
            okv == obs_views(ok@),
            okv.len() == ok@.len(),
            0 <= i <= ok@.len(),
            views_of(members@) == members_of_pair(okv.take(i as int), v@, df),
            in_ws == ws_has_pair(okv.take(i as int), v@, df),
        decreases ok@.len() - i,
    {
        proof {
            assert(okv.take(i + 1).drop_last() =~= okv.take(i as int));
            assert(okv.take(i + 1).last() == okv[i as int]);
            assert(okv[i as int] == obs_view(ok@[i as int]));
        }
        let ghost m_old = members@;
        let ghost ws_old = in_ws;
        if str_eq(ok[i].version.as_str(), v) && opt_bool_eq(ok[i].df, df) {
            match &ok[i].member {
                Some(m) => {
                    members.push(m.clone());
                    proof {
                        assert(views_of(members@) =~= views_of(m_old).push(
                            okv[i as int].member.unwrap(),
                        ));
                    }
                },
                None => {
                    in_ws = true;
                },
            }
        }
        proof {
            assert(views_of(members@) =~= members_of_pair(okv.take(i + 1), v@, df));
            assert(in_ws == ws_has_pair(okv.take(i + 1), v@, df)) by {
                if in_ws && !ws_old {
                    assert(okv.take(i + 1)[i as int].version == v@ && okv.take(
                        i + 1,
                    )[i as int].df == df && okv.take(i + 1)[i as int].member is None);
                } else if ws_old {
                    let w = choose|j: int|
                        0 <= j < i && (#[trigger] okv.take(i as int)[j]).version == v@ && okv.take(
                            i as int,
                        )[j].df == df && okv.take(i as int)[j].member is None;
                    assert(okv.take(i + 1)[w].version == v@ && okv.take(i + 1)[w].df == df
                        && okv.take(i + 1)[w].member is None);
                } else {
                    assert(forall|j: int|
                        0 <= j < i + 1 ==> !((#[trigger] okv.take(i + 1)[j]).version == v@
                            && okv.take(i + 1)[j].df == df && okv.take(i + 1)[j].member
                            is None)) by {
                        assert(forall|j: int|
                            0 <= j < i ==> okv.take(i + 1)[j] == okv.take(i as int)[j]);
                    }
                }
            }
        }
        i += 1;
    }
    proof {
        assert(okv.take(ok@.len() as int) =~= okv);
    }
    (members, in_ws)
}

/// The distinct (version, default-features) observations of a key, each with
/// its usage.
fn build_spec_entries(ok: &Vec<Observation>) -> (r: Vec<SpecEntry>)
    ensures
        ({
            let okv = obs_views(ok@);
            let pairs = key_pairs(okv);
            &&& r@.len() == pairs.len()
            &&& forall|i: int|
                0 <= i < r@.len() ==> ((#[trigger] r@[i]).version@, r@[i].default_features)
                    == pairs[i] && views_of(r@[i].usage.members@) == members_of_pair(
                    okv,
                    pairs[i].0,
                    pairs[i].1,
                ) && r@[i].usage.in_workspace == ws_has_pair(okv, pairs[i].0, pairs[i].1)
        }),
{
    let ghost okv = obs_views(ok@);
    let ghost pairs = key_pairs(okv);
    let pair_list = distinct_pairs(ok);
    let mut r: Vec<SpecEntry> = Vec::new();
    let mut i: usize = 0;
    while i < pair_list.len()
        invariant
            okv == obs_views(ok@),
            pairs == key_pairs(okv),
            pair_list@.map_values(|p: (String, Option<bool>)| (p.0@, p.1)) == pairs,
            pair_list@.len() == pairs.len(),
            0 <= i <= pair_list@.len(),
            r@.len() == i,
            forall|j: int|
                0 <= j < i ==> ((#[trigger] r@[j]).version@, r@[j].default_features) == pairs[j]
                    && views_of(r@[j].usage.members@) == members_of_pair(
                    okv,
                    pairs[j].0,
                    pairs[j].1,
                ) && r@[j].usage.in_workspace == ws_has_pair(okv, pairs[j].0, pairs[j].1),
        decreases pair_list@.len() - i,
    {
        proof {
            assert(pairs[i as int] == (pair_list@[i as int].0@, pair_list@[i as int].1));
        }
        let (ms, in_ws) = members_ws_for_pair(ok, pair_list[i].0.as_str(), pair_list[i].1);
        let entry = SpecEntry {
            version: pair_list[i].0.clone(),
            default_features: pair_list[i].1,
            usage: VersionUsage { members: ms, in_workspace: in_ws },
        };
        r.push(entry);
        i += 1;
    }
    r
}

/// Each distinct version of a key with its usage, in first-occurrence
/// order.
fn build_version_entries(ok: &Vec<Observation>, versions: &Vec<String>) -> (r: Vec<VersionEntry>)
    requires
        views_of(versions@) == dedup(obs_views(ok@).map_values(|o: Obs| o.version)),
    ensures
        ({
            let okv = obs_views(ok@);
            let vs = key_versions_of(okv);
            &&& r@.len() == vs.len()
            &&& forall|i: int|
                0 <= i < r@.len() ==> (#[trigger] r@[i]).version@ == vs[i] && views_of(
                    r@[i].usage.members@,
                ) == members_of_version(okv, vs[i]) && r@[i].usage.in_workspace == ws_has_version(
                    okv,
                    vs[i],
                )
        }),
{
    let ghost okv = obs_views(ok@);
    let ghost vs = key_versions_of(okv);
    let mut r: Vec<VersionEntry> = Vec::new();
    let mut i: usize = 0;
    while i < versions.len()
        invariant
            okv == obs_views(ok@),
            vs == key_versions_of(okv),
            views_of(versions@) == vs,
            versions@.len() == vs.len(),
            0 <= i <= versions@.len(),
            r@.len() == i,
            forall|j: int|
                0 <= j < i ==> (#[trigger] r@[j]).version@ == vs[j] && views_of(
                    r@[j].usage.members@,
                ) == members_of_version(okv, vs[j]) && r@[j].usage.in_workspace == ws_has_version(
                    okv,
                    vs[j],
                ),
        decreases versions@.len() - i,
    {
        proof {
            assert(vs[i as int] == versions@[i as int]@);
        }
        let (ms, in_ws) = members_ws_for_version(ok, versions[i].as_str());
        let entry = VersionEntry {
            version: versions[i].clone(),
            usage: VersionUsage { members: ms, in_workspace: in_ws },
        };
        r.push(entry);
        i += 1;
    }
    r
}

/// A key's distinct versions, from its own observations.
pub open spec fn key_versions_of(ok: Seq<Obs>) -> Seq<Seq<char>> {
    dedup(ok.map_values(|o: Obs| o.version))
}

/// The common default-features value of agreeing observations.
fn common_df_exec(vals: &Vec<Option<bool>>) -> (r: Option<bool>)
    ensures
        r == common_df(vals@),
{
    if vals.len() == 0 {
        None
    } else {
        vals[0]
    }
}

/// Builds the conflict report for a key: every recorded (version,
/// default-features) observation with its members (the shared pool appearing
/// as the member "workspace"), and the given conflict kinds.
pub fn create_conflict(
    key: &WorkspaceDepKey,
    spec_entries: &Vec<SpecEntry>,
    conflict_types: Vec<ConflictType>,
) -> (r: ConflictingDependency)
    ensures
        r.name@ == key.name@,
        r.section == key.section,
        r.conflict_types@ == conflict_types@,
        r.version_specs@.len() == spec_entries@.len(),
        forall|i: int|
            0 <= i < spec_entries@.len() ==> version_spec_view(#[trigger] r.version_specs@[i])
                == (SpecView {
                version: spec_entries@[i].version@,
                default_features: spec_entries@[i].default_features,
                members: usage_member_list(
                    views_of(spec_entries@[i].usage.members@),
                    spec_entries@[i].usage.in_workspace,
                ),
            }),
{
    let mut version_specs: Vec<VersionSpec> = Vec::new();
    let mut i: usize = 0;
    while i < spec_entries.len()
        invariant
            0 <= i <= spec_entries@.len(),
            version_specs@.len() == i,
            forall|j: int|
                0 <= j < i ==> version_spec_view(#[trigger] version_specs@[j]) == (SpecView {
                    version: spec_entries@[j].version@,
                    default_features: spec_entries@[j].default_features,
                    members: usage_member_list(
                        views_of(spec_entries@[j].usage.members@),
                        spec_entries@[j].usage.in_workspace,
                    ),
                }),
        decreases spec_entries@.len() - i,
    {
        let entry = VersionSpec {
            version: spec_entries[i].version.clone(),
            default_features: spec_entries[i].default_features,
            members: spec_entries[i].usage.to_member_list(),
        };
        version_specs.push(entry);
        i += 1;
    }
    ConflictingDependency {
        name: key.name.clone(),
        section: key.section,
        version_specs,
        conflict_types,
    }
}

/// When every observation carries one key, that key's observations are all
/// of them.
proof fn lemma_obs_for_key_all(obs: Seq<Obs>, k: KeyView)
    requires
        forall|i: int| 0 <= i < obs.len() ==> (#[trigger] obs[i]).key == k,
    ensures
        obs_for_key(obs, k) == obs,
    decreases obs.len(),
{
    if obs.len() > 0 {
        let d = obs.drop_last();
        assert(forall|i: int| 0 <= i < d.len() ==> (#[trigger] d[i]).key == k) by {
            assert(forall|i: int| 0 <= i < d.len() ==> d[i] == obs[i]);
        }
        lemma_obs_for_key_all(d, k);
        assert(obs_for_key(obs, k) =~= obs);
    } else {
        assert(obs_for_key(obs, k) =~= obs);
    }
}

/// The distinct values of a nonempty constant sequence are that one value.
proof fn lemma_dedup_constant<A>(s: Seq<A>, v: A)
    requires
        s.len() > 0,
        forall|i: int| 0 <= i < s.len() ==> s[i] == v,
    ensures
        dedup(s) == seq![v],
    decreases s.len(),
{
    if s.len() == 1 {
        assert(dedup(s.drop_last()) == Seq::<A>::empty());
        assert(dedup(s) =~= seq![v]);
    } else {
        let d = s.drop_last();
        assert(forall|i: int| 0 <= i < d.len() ==> d[i] == v) by {
            assert(forall|i: int| 0 <= i < d.len() ==> d[i] == s[i]);
        }
        lemma_dedup_constant(d, v);
        assert(dedup(d).contains(s.last())) by {
            assert(dedup(d)[0] == v);
        }
    }
}

/// When every observation carries one version and one default-features
/// value, that version's recorded values are exactly those.
proof fn lemma_dfs_constant(ok: Seq<Obs>, v: Seq<char>, df: Option<bool>)
    requires
        forall|i: int| 0 <= i < ok.len() ==> (#[trigger] ok[i]).version == v && ok[i].df == df,
    ensures
        dfs_of_version(ok, v).len() == ok.len(),
        forall|i: int| 0 <= i < ok.len() ==> dfs_of_version(ok, v)[i] == df,
    decreases ok.len(),
{
    if ok.len() > 0 {
        let d = ok.drop_last();
        assert(forall|i: int|
            0 <= i < d.len() ==> (#[trigger] d[i]).version == v && d[i].df == df) by {
            assert(forall|i: int| 0 <= i < d.len() ==> d[i] == ok[i]);
        }
        lemma_dfs_constant(d, v, df);
        assert(dfs_of_version(ok, v) =~= dfs_of_version(d, v) + seq![df]);
    }
}

/// A key whose declarations agree never conflicts: when, in any workspace,
/// every observation of one equivalence key carries one version string and
/// one default-features value, and the key is not excluded, that key's
/// outcome is a consolidation with exactly that version and that
/// default-features value whenever the eligibility rule admits it, and
/// nothing otherwise — never a conflict.
pub proof fn lemma_agreeing_key_outcome(
    obs: Seq<Obs>,
    k: KeyView,
    v: Seq<char>,
    df: Option<bool>,
    exclude: Seq<Seq<char>>,
    min_members: nat,
    strategy: VersionResolutionStrategy,
)
    requires
        obs_for_key(obs, k).len() > 0,
        forall|i: int|
            0 <= i < obs_for_key(obs, k).len() ==> (#[trigger] obs_for_key(obs, k)[i]).version
                == v && obs_for_key(obs, k)[i].df == df,
        !exclude.contains(k.name),
    ensures
        should_consolidate_spec(
            key_has_ws(obs_for_key(obs, k)),
            members_of_version(obs_for_key(obs, k), v).len(),
            min_members,
        ) ==> key_outcome(obs, k, exclude, min_members, strategy) == KeyOutcome::Common(
            CommonView {
                name: k.name,
                version: v,
                section: k.section,
                members: members_of_version(obs_for_key(obs, k), v),
                package: k.package,
                registry: k.registry,
                default_features: df,
                resolved_from: None,
            },
        ),
        !should_consolidate_spec(
            key_has_ws(obs_for_key(obs, k)),
            members_of_version(obs_for_key(obs, k), v).len(),
            min_members,
        ) ==> key_outcome(obs, k, exclude, min_members, strategy) == KeyOutcome::Skipped,
{
    let ok = obs_for_key(obs, k);
    let vseq = ok.map_values(|o: Obs| o.version);
    assert(forall|i: int| 0 <= i < vseq.len() ==> vseq[i] == v);
    lemma_dedup_constant(vseq, v);
    let vs = key_versions(obs, k);
    assert(vs == seq![v]);
    lemma_dfs_constant(ok, v, df);
    let dfs = dfs_of_version(ok, vs[0]);
    assert(vs[0] == v);
    assert(!df_values_conflict(dfs)) by {
        assert(forall|a: int, b: int|
            0 <= a < dfs.len() && 0 <= b < dfs.len() ==> dfs[a] == dfs[b]);
    }
    assert(common_df(dfs) == df) by {
        assert(dfs.len() > 0);
        assert(dfs[0] == df);
    }
    assert(grouped_members(ok, vs) == members_of_version(ok, v)) by {
        assert(vs.drop_last() =~= Seq::<Seq<char>>::empty());
        assert(vs.last() == v);
        assert(vs.len() == 1);
        assert(grouped_members(ok, Seq::<Seq<char>>::empty()) == Seq::<Seq<char>>::empty());
        assert(grouped_members(ok, vs) == grouped_members(ok, vs.drop_last())
            + members_of_version(ok, vs.last()));
        assert(grouped_members(ok, vs) =~= members_of_version(ok, v));
    }
}

/// Default-features reconciliation is checked even when the version
/// resolves cleanly: a key with one distinct version whose recorded
/// default-features values disagree is reported as a conflict of exactly
/// that kind, and never consolidated.
pub proof fn lemma_flag_disagreement_conflicts(
    obs: Seq<Obs>,
    k: KeyView,
    exclude: Seq<Seq<char>>,
    min_members: nat,
    strategy: VersionResolutionStrategy,
)
    requires
        !exclude.contains(k.name),
        key_versions(obs, k).len() == 1,
        df_values_conflict(dfs_of_version(obs_for_key(obs, k), key_versions(obs, k)[0])),
    ensures
        key_outcome(obs, k, exclude, min_members, strategy) == KeyOutcome::Conflict(
            key_conflict(obs, k, seq![ConflictType::DefaultFeatures]),
        ),
{
}

/// Agreeing default-features values never produce a flags conflict: when
/// the key's version settles (one distinct version, or the policy resolves
/// the disagreement) and the values recorded against the settled version do
/// not disagree, the key is consolidated when eligible — carrying the
/// common recorded value — and skipped otherwise, never reported as a
/// conflict.
pub proof fn lemma_agreeing_flags_no_conflict(
    obs: Seq<Obs>,
    k: KeyView,
    exclude: Seq<Seq<char>>,
    min_members: nat,
    strategy: VersionResolutionStrategy,
)
    requires
        !exclude.contains(k.name),
        ({
            let vs = key_versions(obs, k);
            vs.len() == 1 || resolve_spec(vs, strategy) is Ok
        }),
        ({
            let vs = key_versions(obs, k);
            let rv = if vs.len() == 1 {
                vs[0]
            } else {
                resolve_spec(vs, strategy)->Ok_0
            };
            !df_values_conflict(dfs_of_version(obs_for_key(obs, k), rv))
        }),
    ensures
        !(key_outcome(obs, k, exclude, min_members, strategy) is Conflict),
        ({
            let vs = key_versions(obs, k);
            let ok = obs_for_key(obs, k);
            let rv = if vs.len() == 1 {
                vs[0]
            } else {
                resolve_spec(vs, strategy)->Ok_0
            };
            &&& (key_outcome(obs, k, exclude, min_members, strategy) matches KeyOutcome::Common(
                c,
            ) ==> c.version == rv && c.default_features == common_df(dfs_of_version(ok, rv)))
            &&& (should_consolidate_spec(
                key_has_ws(ok),
                grouped_members(ok, vs).len(),
                min_members,
            ) ==> key_outcome(obs, k, exclude, min_members, strategy) is Common)
        }),
{
}

/// Declarations that agree yield a consolidation and no conflict: when
/// every observation of a workspace carries one equivalence key, one
/// version string and one default-features value, and the key is not
/// excluded, the analysis reports no conflict for it, and consolidates it
/// with exactly that version and that default-features value whenever the
/// eligibility rule admits it (and reports nothing otherwise).
pub proof fn lemma_agreeing_key_consolidates(
    obs: Seq<Obs>,
    k: KeyView,
    v: Seq<char>,
    df: Option<bool>,
    exclude: Seq<Seq<char>>,
    min_members: nat,
    strategy: VersionResolutionStrategy,
)
    requires
        obs.len() > 0,
        forall|i: int|
            0 <= i < obs.len() ==> (#[trigger] obs[i]).key == k && obs[i].version == v
                && obs[i].df == df,
        !exclude.contains(k.name),
    ensures
        obs_keys(obs) == seq![k],
        conflicts_spec(obs, obs_keys(obs), exclude, min_members, strategy) == Seq::<
            ConflictView,
        >::empty(),
        should_consolidate_spec(key_has_ws(obs), members_of_version(obs, v).len(), min_members)
            ==> commons_spec(obs, obs_keys(obs), exclude, min_members, strategy) == seq![
            CommonView {
                name: k.name,
                version: v,
                section: k.section,
                members: members_of_version(obs, v),
                package: k.package,
                registry: k.registry,
                default_features: df,
                resolved_from: None,
            },
        ],
        !should_consolidate_spec(key_has_ws(obs), members_of_version(obs, v).len(), min_members)
            ==> commons_spec(obs, obs_keys(obs), exclude, min_members, strategy) == Seq::<
            CommonView,
        >::empty(),
{
    let kseq = obs.map_values(|o: Obs| o.key);
    assert(kseq.len() == obs.len());
    assert(forall|i: int| 0 <= i < kseq.len() ==> kseq[i] == k);
    lemma_dedup_constant(kseq, k);
    assert(obs_keys(obs) == seq![k]);
    lemma_obs_for_key_all(obs, k);
    let ok = obs_for_key(obs, k);
    assert(ok == obs);
    lemma_agreeing_key_outcome(obs, k, v, df, exclude, min_members, strategy);
    let outcome = key_outcome(obs, k, exclude, min_members, strategy);
    let keys = obs_keys(obs);
    assert(keys.drop_last() =~= Seq::<KeyView>::empty());
    assert(keys.last() == k);
    assert(commons_spec(obs, keys.drop_last(), exclude, min_members, strategy) =~= Seq::<
        CommonView,
    >::empty());
    assert(conflicts_spec(obs, keys.drop_last(), exclude, min_members, strategy) =~= Seq::<
        ConflictView,
    >::empty());
    if should_consolidate_spec(key_has_ws(obs), members_of_version(obs, v).len(), min_members) {
        assert(outcome == KeyOutcome::Common(
            CommonView {
                name: k.name,
                version: v,
                section: k.section,
                members: members_of_version(obs, v),
                package: k.package,
                registry: k.registry,
                default_features: df,
                resolved_from: None,
            },
        ));
        assert(commons_spec(obs, keys, exclude, min_members, strategy) =~= seq![
            CommonView {
                name: k.name,
                version: v,
                section: k.section,
                members: members_of_version(obs, v),
                package: k.package,
                registry: k.registry,
                default_features: df,
                resolved_from: None,
            },
        ]);
    } else {
        assert(outcome == KeyOutcome::Skipped);
        assert(commons_spec(obs, keys, exclude, min_members, strategy) =~= Seq::<
            CommonView,
        >::empty());
    }
    assert(conflicts_spec(obs, keys, exclude, min_members, strategy) =~= Seq::<
        ConflictView,
    >::empty());
}

/// `dedup` keeps exactly the values of the sequence.
proof fn lemma_dedup_contains<A>(s: Seq<A>, x: A)
    ensures
        dedup(s).contains(x) <==> s.contains(x),
    decreases s.len(),
{
    if s.len() > 0 {
        lemma_dedup_contains(s.drop_last(), x);
        assert(s.contains(x) <==> (s.drop_last().contains(x) || s.last() == x)) by {
            if s.contains(x) {
                let i = choose|i: int| 0 <= i < s.len() && s[i] == x;
                if i < s.len() - 1 {
                    assert(s.drop_last()[i] == x);
                }
            }
            if s.drop_last().contains(x) {
                let i = choose|i: int| 0 <= i < s.drop_last().len() && s.drop_last()[i] == x;
                assert(s[i] == x);
            }
            if s.last() == x {
                assert(s[s.len() - 1] == x);
            }
        }
        let d = dedup(s.drop_last());
        if !d.contains(s.last()) {
            assert(dedup(s) == d.push(s.last()));
            assert(dedup(s).contains(x) <==> (d.contains(x) || s.last() == x)) by {
                if dedup(s).contains(x) {
                    let i = choose|i: int| 0 <= i < dedup(s).len() && dedup(s)[i] == x;
                    if i < d.len() {
                        assert(d[i] == x);
                    }
                }
                if d.contains(x) {
                    let i = choose|i: int| 0 <= i < d.len() && d[i] == x;
                    assert(d.push(s.last())[i] == x);
                }
                assert(d.push(s.last())[d.len() as int] == s.last());
            }
        }
    }
}

/// `dedup` lists no value twice.
proof fn lemma_dedup_distinct<A>(s: Seq<A>)
    ensures
        forall|i: int, j: int|
            0 <= i < j < dedup(s).len() ==> dedup(s)[i] != dedup(s)[j],
    decreases s.len(),
{
    if s.len() > 0 {
        lemma_dedup_distinct(s.drop_last());
        let d = dedup(s.drop_last());
        if !d.contains(s.last()) {
            assert(dedup(s) == d.push(s.last()));
            assert(forall|i: int, j: int|
                0 <= i < j < dedup(s).len() ==> dedup(s)[i] != dedup(s)[j]) by {
                assert(forall|i: int| 0 <= i < d.len() ==> d[i] != s.last()) by {
                    assert(forall|i: int|
                        0 <= i < d.len() && d[i] == s.last() ==> d.contains(s.last()));
                }
                assert(forall|i: int| 0 <= i < d.len() ==> dedup(s)[i] == d[i]);
            }
        }
    }
}

/// A key with observations occurs among the observations.
proof fn lemma_obs_for_key_member(obs: Seq<Obs>, k: KeyView)
    requires
        obs_for_key(obs, k).len() > 0,
    ensures
        exists|i: int| 0 <= i < obs.len() && (#[trigger] obs[i]).key == k,
    decreases obs.len(),
{
    if obs.len() > 0 {
        if obs.last().key == k {
            assert(obs[obs.len() - 1].key == k);
        } else {
            assert(obs_for_key(obs, k) == obs_for_key(obs.drop_last(), k));
            lemma_obs_for_key_member(obs.drop_last(), k);
            let i = choose|i: int|
                0 <= i < obs.drop_last().len() && (#[trigger] obs.drop_last()[i]).key == k;
            assert(obs[i].key == k);
        }
    }
}

/// Whether a consolidated entry carries exactly this key's identity.
pub open spec fn matches_key(c: CommonView, k: KeyView) -> bool {
    c.name == k.name && c.section == k.section && c.package == k.package && c.registry
        == k.registry
}

/// A consolidated entry always carries its key's identity.
proof fn lemma_outcome_common_fields(
    obs: Seq<Obs>,
    k: KeyView,
    exclude: Seq<Seq<char>>,
    min_members: nat,
    strategy: VersionResolutionStrategy,
)
    ensures
        key_outcome(obs, k, exclude, min_members, strategy) matches KeyOutcome::Common(c)
            ==> matches_key(c, k),
{
}

/// The consolidated entries of concatenated key lists are the lists'
/// entries, concatenated.
proof fn lemma_commons_spec_concat(
    obs: Seq<Obs>,
    a: Seq<KeyView>,
    b: Seq<KeyView>,
    exclude: Seq<Seq<char>>,
    min_members: nat,
    strategy: VersionResolutionStrategy,
)
    ensures
        commons_spec(obs, a + b, exclude, min_members, strategy) == commons_spec(
            obs,
            a,
            exclude,
            min_members,
            strategy,
        ) + commons_spec(obs, b, exclude, min_members, strategy),
    decreases b.len(),
{
    if b.len() == 0 {
        assert(a + b =~= a);
        assert(commons_spec(obs, b, exclude, min_members, strategy) =~= Seq::<
            CommonView,
        >::empty());
        assert(commons_spec(obs, a, exclude, min_members, strategy) + Seq::<CommonView>::empty()
            =~= commons_spec(obs, a, exclude, min_members, strategy));
    } else {
        lemma_commons_spec_concat(obs, a, b.drop_last(), exclude, min_members, strategy);
        assert((a + b).drop_last() =~= a + b.drop_last());
        assert((a + b).last() == b.last());
        assert(commons_spec(obs, a + b, exclude, min_members, strategy) =~= commons_spec(
            obs,
            a,
            exclude,
            min_members,
            strategy,
        ) + commons_spec(obs, b, exclude, min_members, strategy));
    }
}

/// The reported conflicts of concatenated key lists are the lists'
/// conflicts, concatenated.
proof fn lemma_conflicts_spec_concat(
    obs: Seq<Obs>,
    a: Seq<KeyView>,
    b: Seq<KeyView>,
    exclude: Seq<Seq<char>>,
    min_members: nat,
    strategy: VersionResolutionStrategy,
)
    ensures
        conflicts_spec(obs, a + b, exclude, min_members, strategy) == conflicts_spec(
            obs,
            a,
            exclude,
            min_members,
            strategy,
        ) + conflicts_spec(obs, b, exclude, min_members, strategy),
    decreases b.len(),
{
    if b.len() == 0 {
        assert(a + b =~= a);
        assert(conflicts_spec(obs, b, exclude, min_members, strategy) =~= Seq::<
            ConflictView,
        >::empty());
        assert(conflicts_spec(obs, a, exclude, min_members, strategy) + Seq::<
            ConflictView,
        >::empty() =~= conflicts_spec(obs, a, exclude, min_members, strategy));
    } else {
        lemma_conflicts_spec_concat(obs, a, b.drop_last(), exclude, min_members, strategy);
        assert((a + b).drop_last() =~= a + b.drop_last());
        assert((a + b).last() == b.last());
        assert(conflicts_spec(obs, a + b, exclude, min_members, strategy) =~= conflicts_spec(
            obs,
            a,
            exclude,
            min_members,
            strategy,
        ) + conflicts_spec(obs, b, exclude, min_members, strategy));
    }
}

/// Every consolidated entry carries the identity of one of the keys it was
/// computed for.
proof fn lemma_commons_entries_keys(
    obs: Seq<Obs>,
    keys: Seq<KeyView>,
    exclude: Seq<Seq<char>>,
    min_members: nat,
    strategy: VersionResolutionStrategy,
)
    ensures
        forall|e: int|
            0 <= e < commons_spec(obs, keys, exclude, min_members, strategy).len() ==> exists|
                j: int,
            |
                0 <= j < keys.len() && matches_key(
                    #[trigger] commons_spec(obs, keys, exclude, min_members, strategy)[e],
                    keys[j],
                ),
    decreases keys.len(),
{
    if keys.len() > 0 {
        lemma_commons_entries_keys(obs, keys.drop_last(), exclude, min_members, strategy);
        lemma_outcome_common_fields(obs, keys.last(), exclude, min_members, strategy);
        let cs = commons_spec(obs, keys, exclude, min_members, strategy);
        let prior = commons_spec(obs, keys.drop_last(), exclude, min_members, strategy);
        assert(forall|e: int|
            0 <= e < cs.len() ==> exists|j: int|
                0 <= j < keys.len() && matches_key(#[trigger] cs[e], keys[j])) by {
            assert forall|e: int| 0 <= e < cs.len() implies exists|j: int|
                0 <= j < keys.len() && matches_key(#[trigger] cs[e], keys[j]) by {
                if e < prior.len() {
                    assert(cs[e] == prior[e]);
                    let j = choose|j: int|
                        0 <= j < keys.drop_last().len() && matches_key(
                            prior[e],
                            #[trigger] keys.drop_last()[j],
                        );
                    assert(keys[j] == keys.drop_last()[j]);
                    assert(matches_key(cs[e], keys[j]));
                } else {
                    match key_outcome(obs, keys.last(), exclude, min_members, strategy) {
                        KeyOutcome::Common(c) => {
                            assert(cs[e] == c);
                            assert(matches_key(cs[e], keys[keys.len() - 1]));
                        },
                        _ => {
                            assert(cs.len() == prior.len());
                        },
                    }
                }
            }
        }
    }
}

/// Declarations that agree yield a consolidation and no conflict, within
/// any workspace: when every observation of one equivalence key carries one
/// version string and one default-features value, and the key is not
/// excluded, the analysis's conflict list is unchanged by dropping that key
/// — it contributes no conflict — and the consolidated list holds exactly
/// one entry with the key's identity, carrying that version and that
/// default-features value, when the eligibility rule admits it, and none
/// otherwise.
pub proof fn lemma_agreeing_key_in_analysis(
    obs: Seq<Obs>,
    k: KeyView,
    v: Seq<char>,
    df: Option<bool>,
    exclude: Seq<Seq<char>>,
    min_members: nat,
    strategy: VersionResolutionStrategy,
)
    requires
        obs_for_key(obs, k).len() > 0,
        forall|i: int|
            0 <= i < obs_for_key(obs, k).len() ==> (#[trigger] obs_for_key(obs, k)[i]).version
                == v && obs_for_key(obs, k)[i].df == df,
        !exclude.contains(k.name),
    ensures
        ({
            let keys = obs_keys(obs);
            let commons = commons_spec(obs, keys, exclude, min_members, strategy);
            let conflicts = conflicts_spec(obs, keys, exclude, min_members, strategy);
            let ok = obs_for_key(obs, k);
            let eligible = should_consolidate_spec(
                key_has_ws(ok),
                members_of_version(ok, v).len(),
                min_members,
            );
            let cv = CommonView {
                name: k.name,
                version: v,
                section: k.section,
                members: members_of_version(ok, v),
                package: k.package,
                registry: k.registry,
                default_features: df,
                resolved_from: None,
            };
            &&& (exists|idx: int|
                0 <= idx < keys.len() && keys[idx] == k && conflicts == #[trigger] conflicts_spec(
                    obs,
                    keys.remove(idx),
                    exclude,
                    min_members,
                    strategy,
                ))
            &&& (eligible ==> (exists|i: int|
                0 <= i < commons.len() && #[trigger] commons[i] == cv && (forall|j: int|
                    0 <= j < commons.len() && j != i ==> !matches_key(#[trigger] commons[j], k))))
            &&& (!eligible ==> (forall|j: int|
                0 <= j < commons.len() ==> !matches_key(#[trigger] commons[j], k)))
        }),
{
    let keys = obs_keys(obs);
    let kseq = obs.map_values(|o: Obs| o.key);
    lemma_obs_for_key_member(obs, k);
    let w = choose|i: int| 0 <= i < obs.len() && (#[trigger] obs[i]).key == k;
    assert(kseq[w] == k);
    assert(kseq.contains(k));
    lemma_dedup_contains(kseq, k);
    assert(keys.contains(k));
    let idx = choose|idx: int| 0 <= idx < keys.len() && keys[idx] == k;
    lemma_dedup_distinct(kseq);
    assert(forall|j: int| 0 <= j < keys.len() && j != idx ==> keys[j] != k);

    lemma_agreeing_key_outcome(obs, k, v, df, exclude, min_members, strategy);
    let outcome = key_outcome(obs, k, exclude, min_members, strategy);
    let ok = obs_for_key(obs, k);
    let eligible = should_consolidate_spec(
        key_has_ws(ok),
        members_of_version(ok, v).len(),
        min_members,
    );
    let cv = CommonView {
        name: k.name,
        version: v,
        section: k.section,
        members: members_of_version(ok, v),
        package: k.package,
        registry: k.registry,
        default_features: df,
        resolved_from: None,
    };

    let a = keys.take(idx);
    let b = keys.skip(idx + 1);
    let mid = seq![k];
    assert(keys == a + (mid + b)) by {
        assert(keys =~= a + (mid + b));
    }
    lemma_commons_spec_concat(obs, a, mid + b, exclude, min_members, strategy);
    lemma_commons_spec_concat(obs, mid, b, exclude, min_members, strategy);
    lemma_conflicts_spec_concat(obs, a, mid + b, exclude, min_members, strategy);
    lemma_conflicts_spec_concat(obs, mid, b, exclude, min_members, strategy);
    let ca = commons_spec(obs, a, exclude, min_members, strategy);
    let cb = commons_spec(obs, b, exclude, min_members, strategy);
    let cm = commons_spec(obs, mid, exclude, min_members, strategy);
    assert(mid.drop_last() =~= Seq::<KeyView>::empty());
    assert(mid.last() == k);
    assert(commons_spec(obs, mid.drop_last(), exclude, min_members, strategy) =~= Seq::<
        CommonView,
    >::empty());
    assert(conflicts_spec(obs, mid.drop_last(), exclude, min_members, strategy) =~= Seq::<
        ConflictView,
    >::empty());
    if eligible {
        assert(outcome == KeyOutcome::Common(cv));
        assert(cm =~= seq![cv]);
    } else {
        assert(outcome == KeyOutcome::Skipped);
        assert(cm =~= Seq::<CommonView>::empty());
    }
    assert(conflicts_spec(obs, mid, exclude, min_members, strategy) =~= Seq::<
        ConflictView,
    >::empty());
    let commons = commons_spec(obs, keys, exclude, min_members, strategy);
    let conflicts = conflicts_spec(obs, keys, exclude, min_members, strategy);
    assert(commons == ca + cm + cb) by {
        assert(ca + (cm + cb) =~= ca + cm + cb);
    }
    assert(conflicts == conflicts_spec(obs, a, exclude, min_members, strategy) + conflicts_spec(
        obs,
        b,
        exclude,
        min_members,
        strategy,
    )) by {
        assert(conflicts_spec(obs, a, exclude, min_members, strategy) + (Seq::<
            ConflictView,
        >::empty() + conflicts_spec(obs, b, exclude, min_members, strategy)) =~= conflicts_spec(
            obs,
            a,
            exclude,
            min_members,
            strategy,
        ) + conflicts_spec(obs, b, exclude, min_members, strategy));
    }
    assert(keys.remove(idx) =~= a + b);
    lemma_conflicts_spec_concat(obs, a, b, exclude, min_members, strategy);
    assert(conflicts == conflicts_spec(obs, keys.remove(idx), exclude, min_members, strategy));

    // No entry outside this key's contribution carries its identity.
    lemma_commons_entries_keys(obs, a, exclude, min_members, strategy);
    lemma_commons_entries_keys(obs, b, exclude, min_members, strategy);
    assert(forall|e: int| 0 <= e < ca.len() ==> !matches_key(#[trigger] ca[e], k)) by {
        assert forall|e: int| 0 <= e < ca.len() implies !matches_key(#[trigger] ca[e], k) by {
            let j = choose|j: int| 0 <= j < a.len() && matches_key(ca[e], #[trigger] a[j]);
            assert(a[j] == keys[j]);
            assert(keys[j] != k);
            if matches_key(ca[e], k) {
                assert(keys[j] == k);
            }
        }
    }
    assert(forall|e: int| 0 <= e < cb.len() ==> !matches_key(#[trigger] cb[e], k)) by {
        assert forall|e: int| 0 <= e < cb.len() implies !matches_key(#[trigger] cb[e], k) by {
            let j = choose|j: int| 0 <= j < b.len() && matches_key(cb[e], #[trigger] b[j]);
            assert(b[j] == keys[idx + 1 + j]);
            assert(keys[idx + 1 + j] != k);
            if matches_key(cb[e], k) {
                assert(keys[idx + 1 + j] == k);
            }
        }
    }
    if eligible {
        let i = ca.len() as int;
        assert(commons[i] == cv);
        assert(forall|j: int| 0 <= j < commons.len() && j != i ==> !matches_key(
            #[trigger] commons[j],
            k,
        )) by {
            assert(forall|j: int| 0 <= j < ca.len() ==> commons[j] == ca[j]);
            assert(forall|j: int|
                i < j < commons.len() ==> commons[j] == cb[j - i - 1]);
        }
    } else {
        assert(forall|j: int| 0 <= j < commons.len() ==> !matches_key(
            #[trigger] commons[j],
            k,
        )) by {
            assert(forall|j: int| 0 <= j < ca.len() ==> commons[j] == ca[j]);
            assert(forall|j: int|
                ca.len() <= j < commons.len() ==> commons[j] == cb[j - ca.len()]);
        }
    }
}

/// A flags disagreement on a settled version reaches the final lists, in
/// any workspace: the conflict list holds this key's default-features
/// conflict at the key's position, and the consolidated list is unchanged
/// by dropping the key — it contributes no consolidation.
pub proof fn lemma_flag_disagreement_in_analysis(
    obs: Seq<Obs>,
    k: KeyView,
    exclude: Seq<Seq<char>>,
    min_members: nat,
    strategy: VersionResolutionStrategy,
)
    requires
        !exclude.contains(k.name),
        key_versions(obs, k).len() == 1,
        df_values_conflict(dfs_of_version(obs_for_key(obs, k), key_versions(obs, k)[0])),
    ensures
        ({
            let keys = obs_keys(obs);
            let commons = commons_spec(obs, keys, exclude, min_members, strategy);
            let conflicts = conflicts_spec(obs, keys, exclude, min_members, strategy);
            exists|idx: int|
                0 <= idx < keys.len() && keys[idx] == k && conflicts == conflicts_spec(
                    obs,
                    keys.take(idx),
                    exclude,
                    min_members,
                    strategy,
                ) + seq![key_conflict(obs, k, seq![ConflictType::DefaultFeatures])]
                    + conflicts_spec(obs, keys.skip(idx + 1), exclude, min_members, strategy)
                    && commons == #[trigger] commons_spec(
                    obs,
                    keys.remove(idx),
                    exclude,
                    min_members,
                    strategy,
                )
        }),
{
    let keys = obs_keys(obs);
    let kseq = obs.map_values(|o: Obs| o.key);
    let ok = obs_for_key(obs, k);
    assert(ok.len() > 0) by {
        if ok.len() == 0 {
            assert(ok.map_values(|o: Obs| o.version) =~= Seq::<Seq<char>>::empty());
            assert(key_versions(obs, k) =~= Seq::<Seq<char>>::empty());
        }
    }
    lemma_obs_for_key_member(obs, k);
    let w = choose|i: int| 0 <= i < obs.len() && (#[trigger] obs[i]).key == k;
    assert(kseq[w] == k);
    assert(kseq.contains(k));
    lemma_dedup_contains(kseq, k);
    let idx = choose|idx: int| 0 <= idx < keys.len() && keys[idx] == k;
    lemma_flag_disagreement_conflicts(obs, k, exclude, min_members, strategy);
    let cf = key_conflict(obs, k, seq![ConflictType::DefaultFeatures]);
    assert(key_outcome(obs, k, exclude, min_members, strategy) == KeyOutcome::Conflict(cf));

    let a = keys.take(idx);
    let b = keys.skip(idx + 1);
    let mid = seq![k];
    assert(keys == a + (mid + b)) by {
        assert(keys =~= a + (mid + b));
    }
    lemma_commons_spec_concat(obs, a, mid + b, exclude, min_members, strategy);
    lemma_commons_spec_concat(obs, mid, b, exclude, min_members, strategy);
    lemma_conflicts_spec_concat(obs, a, mid + b, exclude, min_members, strategy);
    lemma_conflicts_spec_concat(obs, mid, b, exclude, min_members, strategy);
    assert(mid.drop_last() =~= Seq::<KeyView>::empty());
    assert(mid.last() == k);
    assert(commons_spec(obs, mid.drop_last(), exclude, min_members, strategy) =~= Seq::<
        CommonView,
    >::empty());
    assert(conflicts_spec(obs, mid.drop_last(), exclude, min_members, strategy) =~= Seq::<
        ConflictView,
    >::empty());
    assert(commons_spec(obs, mid, exclude, min_members, strategy) =~= Seq::<CommonView>::empty());
    assert(conflicts_spec(obs, mid, exclude, min_members, strategy) =~= seq![cf]);
    let ca = commons_spec(obs, a, exclude, min_members, strategy);
    let cb = commons_spec(obs, b, exclude, min_members, strategy);
    let fa = conflicts_spec(obs, a, exclude, min_members, strategy);
    let fb = conflicts_spec(obs, b, exclude, min_members, strategy);
    assert(conflicts_spec(obs, keys, exclude, min_members, strategy) == fa + seq![cf] + fb) by {
        assert(fa + (seq![cf] + fb) =~= fa + seq![cf] + fb);
    }
    assert(commons_spec(obs, keys, exclude, min_members, strategy) == ca + cb) by {
        assert(ca + (Seq::<CommonView>::empty() + cb) =~= ca + cb);
    }
    assert(keys.remove(idx) =~= a + b);
    lemma_commons_spec_concat(obs, a, b, exclude, min_members, strategy);
    assert(commons_spec(obs, keys, exclude, min_members, strategy) == commons_spec(
        obs,
        keys.remove(idx),
        exclude,
        min_members,
        strategy,
    ));
}

/// Unused detection is a set difference over names alone: a name stands in
/// the unused list exactly when some shared-pool entry carries it and
/// neither a consolidated dependency nor an already-shared reference does
/// — in any section — and no name is listed twice.
pub proof fn lemma_unused_is_name_set_difference(
    ws: Seq<WorkspaceDep>,
    commons: Seq<CommonView>,
    refs: Seq<(Seq<char>, DepSection)>,
    n: Seq<char>,
)
    ensures
        unused_spec(ws, commons, refs).contains(n) <==> ((exists|i: int|
            0 <= i < ws.len() && (#[trigger] ws[i]).name@ == n) && !used_name(commons, refs, n)),
        forall|i: int, j: int|
            0 <= i < j < unused_spec(ws, commons, refs).len() ==> unused_spec(ws, commons, refs)[i]
                != unused_spec(ws, commons, refs)[j],
    decreases ws.len(),
{
    if ws.len() > 0 {
        let d = ws.drop_last();
        lemma_unused_is_name_set_difference(d, commons, refs, n);
        let prior = unused_spec(d, commons, refs);
        let full = unused_spec(ws, commons, refs);
        let last_name = ws.last().name@;
        let emitted = !used_name(commons, refs, last_name) && !prior.contains(last_name);
        if emitted {
            assert(full =~= prior.push(last_name));
        } else {
            assert(full =~= prior);
        }
        assert(full.contains(n) <==> ((exists|i: int|
            0 <= i < ws.len() && (#[trigger] ws[i]).name@ == n) && !used_name(
            commons,
            refs,
            n,
        ))) by {
            if full.contains(n) {
                let l = choose|l: int| 0 <= l < full.len() && full[l] == n;
                if l < prior.len() {
                    assert(prior[l] == n);
                    assert(prior.contains(n));
                    let i = choose|i: int| 0 <= i < d.len() && (#[trigger] d[i]).name@ == n;
                    assert(ws[i].name@ == n);
                } else {
                    assert(n == last_name);
                    assert(ws[ws.len() - 1].name@ == n);
                }
            }
            if (exists|i: int| 0 <= i < ws.len() && (#[trigger] ws[i]).name@ == n) && !used_name(
                commons,
                refs,
                n,
            ) {
                let i = choose|i: int| 0 <= i < ws.len() && (#[trigger] ws[i]).name@ == n;
                if i < ws.len() - 1 {
                    assert(d[i].name@ == n);
                    assert(prior.contains(n));
                    let l = choose|l: int| 0 <= l < prior.len() && prior[l] == n;
                    assert(full[l] == n);
                } else {
                    assert(n == last_name);
                    if prior.contains(n) {
                        let l = choose|l: int| 0 <= l < prior.len() && prior[l] == n;
                        assert(full[l] == n);
                    } else {
                        assert(full[prior.len() as int] == n);
                    }
                }
            }
        }
        assert(forall|i: int, j: int| 0 <= i < j < full.len() ==> full[i] != full[j]) by {
            if emitted {
                assert(forall|i: int| 0 <= i < prior.len() ==> full[i] == prior[i]);
                assert(forall|i: int| 0 <= i < prior.len() ==> prior[i] != last_name) by {
                    assert(forall|i: int|
                        0 <= i < prior.len() && prior[i] == last_name ==> prior.contains(
                            last_name,
                        ));
                }
            }
        }
    }
}

/// Decides whether a consolidated dependency with this name exists, in any
/// section.
fn commons_contains(cd: &Vec<CommonDependency>, name: &str) -> (r: bool)
    ensures
        r == (exists|i: int| 0 <= i < cd@.len() && (#[trigger] cd@[i]).name@ == name@),
{
    let mut i: usize = 0;
    while i < cd.len()
        invariant
            0 <= i <= cd@.len(),
            forall|j: int| 0 <= j < i ==> (#[trigger] cd@[j]).name@ != name@,
        decreases cd@.len() - i,
    {
        if str_eq(cd[i].name.as_str(), name) {
            return true;
        }
        i += 1;
    }
    false
}

/// Decides whether an already-shared reference with this name exists, in
/// any section.
fn refs_contains(refs: &Vec<(String, DepSection)>, name: &str) -> (r: bool)
    ensures
        r == (exists|i: int| 0 <= i < refs@.len() && (#[trigger] refs@[i]).0@ == name@),
{
    let mut i: usize = 0;
    while i < refs.len()
        invariant
            0 <= i <= refs@.len(),
            forall|j: int| 0 <= j < i ==> (#[trigger] refs@[j]).0@ != name@,
        decreases refs@.len() - i,
    {
        if str_eq(refs[i].0.as_str(), name) {
            return true;
        }
        i += 1;
    }
    false
}

/// Analyzes the whole workspace in one pass: groups every observation by its
/// equivalence key, decides each key's outcome under the exclusion list, the
/// member threshold and the resolution policy, and flags the shared-pool
/// entries that end up used by nothing.
pub fn analyze_workspace(
    data: &WorkspaceData,
    exclude: &Vec<String>,
    min_members: usize,
    resolution_strategy: &VersionResolutionStrategy,
) -> (r: DependencyAnalysis)
    ensures
        ({
            let obs = all_obs(*data);
            let keys = obs_keys(obs);
            let ex = views_of(exclude@);
            let refs = data.workspace_refs@.map_values(|p: (String, DepSection)| (p.0@, p.1));
            let commons = commons_spec(obs, keys, ex, min_members as nat, *resolution_strategy);
            &&& r.common_deps@.map_values(|c: CommonDependency| common_view(c)) == commons
            &&& r.conflicts@.map_values(|c: ConflictingDependency| conflict_dep_view(c))
                == conflicts_spec(obs, keys, ex, min_members as nat, *resolution_strategy)
            &&& views_of(r.unused_workspace_deps@) == unused_spec(
                data.workspace_deps@,
                commons,
                refs,
            )
        }),
{
    let ghost obsv = all_obs(*data);
    let ghost keysv = obs_keys(obsv);
    let ghost ex = views_of(exclude@);
    let ghost mm = min_members as nat;
    let ghost strat = *resolution_strategy;
    let observations = collect_observations(data);
    let keys = distinct_keys(&observations);
    let mut common_deps: Vec<CommonDependency> = Vec::new();
    let mut conflicts: Vec<ConflictingDependency> = Vec::new();
    let mut ki: usize = 0;
    proof {
        assert(common_deps@.map_values(|c: CommonDependency| common_view(c)) =~= commons_spec(
            obsv,
            keysv.take(0),
            ex,
            mm,
            strat,
        ));
        assert(conflicts@.map_values(|c: ConflictingDependency| conflict_dep_view(c))
            =~= conflicts_spec(obsv, keysv.take(0), ex, mm, strat));
    }
    while ki < keys.len()
        invariant
            obs_views(observations@) == obsv,
            keys@.map_values(|x: WorkspaceDepKey| x@) == keysv,
            keys@.len() == keysv.len(),
            ex == views_of(exclude@),
            mm == min_members as nat,
            strat == *resolution_strategy,
            0 <= ki <= keys@.len(),
            common_deps@.map_values(|c: CommonDependency| common_view(c)) == commons_spec(
                obsv,
                keysv.take(ki as int),
                ex,
                mm,
                strat,
            ),
            conflicts@.map_values(|c: ConflictingDependency| conflict_dep_view(c))
                == conflicts_spec(obsv, keysv.take(ki as int), ex, mm, strat),
        decreases keys@.len() - ki,
    {
        let key = &keys[ki];
        let ghost kv = keysv[ki as int];
        proof {
            assert(key@ == kv);
            assert(keysv.take(ki + 1).drop_last() =~= keysv.take(ki as int));
            assert(keysv.take(ki + 1).last() == kv);
        }
        let ghost commons_old = common_deps@.map_values(|c: CommonDependency| common_view(c));
        let ghost conflicts_old = conflicts@.map_values(
            |c: ConflictingDependency| conflict_dep_view(c),
        );
        let excluded = contains_string(exclude, key.name.as_str());
        proof {
            crate::strutil::lemma_views_contain(exclude@, kv.name);
        }
        if excluded {
            proof {
                assert(key_outcome(obsv, kv, ex, mm, strat) == KeyOutcome::Skipped);
            }
        } else {
            let ok = obs_for_key_exec(&observations, key);
            let ghost okv = obs_for_key(obsv, kv);
            proof {
                assert(obs_views(ok@) == okv);
            }
            let versions = distinct_versions(&ok);
            let ghost vs = key_versions(obsv, kv);
            proof {
                assert(views_of(versions@) == vs);
                assert(versions@.len() == vs.len());
            }
            let has_ws = key_has_ws_exec(&ok);
            // The real member users of the key, grouped by version.
            let mut all_mem: Vec<String> = Vec::new();
            let mut vi: usize = 0;
            proof {
                assert(views_of(all_mem@) =~= grouped_members(okv, vs.take(0)));
            }
            while vi < versions.len()
                invariant
                    okv == obs_views(ok@),
                    vs == views_of(versions@),
                    versions@.len() == vs.len(),
                    0 <= vi <= versions@.len(),
                    views_of(all_mem@) == grouped_members(okv, vs.take(vi as int)),
                decreases versions@.len() - vi,
            {
                proof {
                    assert(vs.take(vi + 1).drop_last() =~= vs.take(vi as int));
                    assert(vs.take(vi + 1).last() == vs[vi as int]);
                    assert(vs[vi as int] == versions@[vi as int]@);
                }
                let (mut ms, _ws) = members_ws_for_version(&ok, versions[vi].as_str());
                let ghost am_old = all_mem@;
                all_mem.append(&mut ms);
                proof {
                    assert(views_of(all_mem@) =~= views_of(am_old) + members_of_version(
                        okv,
                        vs[vi as int],
                    ));
                }
                vi += 1;
            }
            proof {
                assert(vs.take(vs.len() as int) =~= vs);
            }
            if versions.len() == 1 {
                let dfs = dfs_for_version(&ok, versions[0].as_str());
                let ghost dfsv = dfs_of_version(okv, vs[0]);
                proof {
                    assert(versions@[0]@ == vs[0]);
                    assert(dfs@ == dfsv);
                }
                if has_default_features_conflict(&dfs) {
                    let spec_entries = build_spec_entries(&ok);
                    let mut types: Vec<ConflictType> = Vec::new();
                    types.push(ConflictType::DefaultFeatures);
                    proof {
                        assert(types@ =~= seq![ConflictType::DefaultFeatures]);
                    }
                    let cf = create_conflict(key, &spec_entries, types);
                    proof {
                        assert(conflict_dep_view(cf) == key_conflict(
                            obsv,
                            kv,
                            seq![ConflictType::DefaultFeatures],
                        )) by {
                            assert(conflict_dep_view(cf).version_specs =~= key_conflict(
                                obsv,
                                kv,
                                seq![ConflictType::DefaultFeatures],
                            ).version_specs);
                        }
                        assert(key_outcome(obsv, kv, ex, mm, strat) == KeyOutcome::Conflict(
                            conflict_dep_view(cf),
                        ));
                    }
                    conflicts.push(cf);
                    proof {
                        assert(conflicts@.map_values(
                            |c: ConflictingDependency| conflict_dep_view(c),
                        ) =~= conflicts_old.push(conflict_dep_view(cf)));
                    }
                } else {
                    let eligible = should_consolidate(has_ws, all_mem.len(), min_members);
                    if eligible {
                        let cd = CommonDependency {
                            name: key.name.clone(),
                            version: versions[0].clone(),
                            section: key.section,
                            members: all_mem,
                            package: opt_str_clone(&key.package),
                            registry: opt_str_clone(&key.registry),
                            default_features: common_df_exec(&dfs),
                            resolved_from: None,
                        };
                        proof {
                            assert(key_outcome(obsv, kv, ex, mm, strat) == KeyOutcome::Common(
                                common_view(cd),
                            ));
                        }
                        common_deps.push(cd);
                        proof {
                            assert(common_deps@.map_values(
                                |c: CommonDependency| common_view(c),
                            ) =~= commons_old.push(common_view(cd)));
                        }
                    } else {
                        proof {
                            assert(key_outcome(obsv, kv, ex, mm, strat) == KeyOutcome::Skipped);
                        }
                    }
                }
            } else {
                let ventries = build_version_entries(&ok, &versions);
                let member_lists = version_map_to_member_lists(&ventries);
                proof {
                    assert(crate::version_resolver::version_views(member_lists@) =~= vs);
                }
                match resolve_version_conflict(&member_lists, resolution_strategy) {
                    Ok(resolved) => {
                        let (resolved_version, _all) = resolved;
                        let ghost rv = resolve_spec(vs, strat)->Ok_0;
                        proof {
                            assert(resolved_version@ == rv);
                        }
                        let dfs = dfs_for_version(&ok, resolved_version.as_str());
                        let ghost dfsv = dfs_of_version(okv, rv);
                        proof {
                            assert(dfs@ == dfsv);
                        }
                        if has_default_features_conflict(&dfs) {
                            let spec_entries = build_spec_entries(&ok);
                            let mut types: Vec<ConflictType> = Vec::new();
                            types.push(ConflictType::DefaultFeatures);
                            proof {
                                assert(types@ =~= seq![ConflictType::DefaultFeatures]);
                            }
                            let cf = create_conflict(key, &spec_entries, types);
                            proof {
                                assert(conflict_dep_view(cf) == key_conflict(
                                    obsv,
                                    kv,
                                    seq![ConflictType::DefaultFeatures],
                                )) by {
                                    assert(conflict_dep_view(cf).version_specs =~= key_conflict(
                                        obsv,
                                        kv,
                                        seq![ConflictType::DefaultFeatures],
                                    ).version_specs);
                                }
                                assert(key_outcome(obsv, kv, ex, mm, strat)
                                    == KeyOutcome::Conflict(conflict_dep_view(cf)));
                            }
                            conflicts.push(cf);
                            proof {
                                assert(conflicts@.map_values(
                                    |c: ConflictingDependency| conflict_dep_view(c),
                                ) =~= conflicts_old.push(conflict_dep_view(cf)));
                            }
                        } else {
                            let eligible = should_consolidate(
                                has_ws,
                                all_mem.len(),
                                min_members,
                            );
                            if eligible {
                                let cd = CommonDependency {
                                    name: key.name.clone(),
                                    version: resolved_version,
                                    section: key.section,
                                    members: all_mem,
                                    package: opt_str_clone(&key.package),
                                    registry: opt_str_clone(&key.registry),
                                    default_features: common_df_exec(&dfs),
                                    resolved_from: Some(member_lists),
                                };
                                proof {
                                    assert(common_view(cd).resolved_from == Some(
                                        resolver_input(okv, vs),
                                    )) by {
                                        assert(cd.resolved_from.unwrap()@.map_values(
                                            |vm: VersionMembers| vm_view(vm),
                                        ) =~= resolver_input(okv, vs));
                                    }
                                    assert(key_outcome(obsv, kv, ex, mm, strat)
                                        == KeyOutcome::Common(common_view(cd)));
                                }
                                common_deps.push(cd);
                                proof {
                                    assert(common_deps@.map_values(
                                        |c: CommonDependency| common_view(c),
                                    ) =~= commons_old.push(common_view(cd)));
                                }
                            } else {
                                proof {
                                    assert(key_outcome(obsv, kv, ex, mm, strat)
                                        == KeyOutcome::Skipped);
                                }
                            }
                        }
                    },
                    Err(_) => {
                        let adfs = all_dfs_exec(&ok);
                        let mut types: Vec<ConflictType> = Vec::new();
                        types.push(ConflictType::VersionResolution);
                        let ghost both = seq![
                            ConflictType::VersionResolution,
                            ConflictType::DefaultFeatures,
                        ];
                        let ghost only_version = seq![ConflictType::VersionResolution];
                        if has_default_features_conflict(&adfs) {
                            types.push(ConflictType::DefaultFeatures);
                            proof {
                                assert(types@ =~= both);
                            }
                        } else {
                            proof {
                                assert(types@ =~= only_version);
                            }
                        }
                        let ghost typesv = types@;
                        let spec_entries = build_spec_entries(&ok);
                        let cf = create_conflict(key, &spec_entries, types);
                        proof {
                            assert(conflict_dep_view(cf) == key_conflict(obsv, kv, typesv)) by {
                                assert(conflict_dep_view(cf).version_specs =~= key_conflict(
                                    obsv,
                                    kv,
                                    typesv,
                                ).version_specs);
                            }
                            assert(key_outcome(obsv, kv, ex, mm, strat) == KeyOutcome::Conflict(
                                conflict_dep_view(cf),
                            ));
                        }
                        conflicts.push(cf);
                        proof {
                            assert(conflicts@.map_values(
                                |c: ConflictingDependency| conflict_dep_view(c),
                            ) =~= conflicts_old.push(conflict_dep_view(cf)));
                        }
                    },
                }
            }
        }
        proof {
            assert(common_deps@.map_values(|c: CommonDependency| common_view(c)) =~= commons_spec(
                obsv,
                keysv.take(ki + 1),
                ex,
                mm,
                strat,
            ));
            assert(conflicts@.map_values(|c: ConflictingDependency| conflict_dep_view(c))
                =~= conflicts_spec(obsv, keysv.take(ki + 1), ex, mm, strat));
        }
        ki += 1;
    }
    proof {
        assert(keysv.take(keysv.len() as int) =~= keysv);
    }
    let ghost commonsv = commons_spec(obsv, keysv, ex, mm, strat);
    let ghost refsv = data.workspace_refs@.map_values(|p: (String, DepSection)| (p.0@, p.1));
    // Flag the shared-pool entries that neither a consolidated dependency
    // nor an already-shared reference uses.
    let mut unused_workspace_deps: Vec<String> = Vec::new();
    let mut wi: usize = 0;
    proof {
        assert(views_of(unused_workspace_deps@) =~= unused_spec(
            data.workspace_deps@.take(0),
            commonsv,
            refsv,
        ));
    }
    while wi < data.workspace_deps.len()
        invariant
            0 <= wi <= data.workspace_deps@.len(),
            common_deps@.map_values(|c: CommonDependency| common_view(c)) == commonsv,
            refsv == data.workspace_refs@.map_values(|p: (String, DepSection)| (p.0@, p.1)),
            views_of(unused_workspace_deps@) == unused_spec(
                data.workspace_deps@.take(wi as int),
                commonsv,
                refsv,
            ),
        decreases data.workspace_deps@.len() - wi,
    {
        let w = &data.workspace_deps[wi];
        proof {
            assert(data.workspace_deps@.take(wi + 1).drop_last() =~= data.workspace_deps@.take(
                wi as int,
            ));
            assert(data.workspace_deps@.take(wi + 1).last() == data.workspace_deps@[wi as int]);
        }
        let in_commons = commons_contains(&common_deps, w.name.as_str());
        let in_refs = refs_contains(&data.workspace_refs, w.name.as_str());
        let listed = contains_string(&unused_workspace_deps, w.name.as_str());
        proof {
            assert((in_commons || in_refs) == used_name(commonsv, refsv, w.name@)) by {
                if in_commons {
                    let i = choose|i: int|
                        0 <= i < common_deps@.len() && (#[trigger] common_deps@[i]).name@
                            == w.name@;
                    assert(commonsv[i].name == w.name@);
                }
                if in_refs {
                    let i = choose|i: int|
                        0 <= i < data.workspace_refs@.len() && (#[trigger] data.workspace_refs@[i]).0@
                            == w.name@;
                    assert(refsv[i].0 == w.name@);
                }
                if !in_commons && !in_refs {
                    assert(forall|i: int|
                        0 <= i < commonsv.len() ==> (#[trigger] commonsv[i]).name != w.name@) by {
                        assert(forall|i: int|
                            0 <= i < common_deps@.len() ==> (#[trigger] common_deps@[i]).name@
                                != w.name@);
                        assert(forall|i: int|
                            0 <= i < commonsv.len() ==> commonsv[i] == common_view(
                                #[trigger] common_deps@[i],
                            ));
                    }
                    assert(forall|i: int|
                        0 <= i < refsv.len() ==> (#[trigger] refsv[i]).0 != w.name@) by {
                        assert(forall|i: int|
                            0 <= i < refsv.len() ==> refsv[i] == ((
                            #[trigger] data.workspace_refs@[i]).0@, data.workspace_refs@[i].1));
                    }
                }
            };
            crate::strutil::lemma_views_contain(unused_workspace_deps@, w.name@);
            assert(listed == unused_spec(
                data.workspace_deps@.take(wi as int),
                commonsv,
                refsv,
            ).contains(w.name@));
        }
        if !in_commons && !in_refs && !listed {
            let ghost u_old = unused_workspace_deps@;
            unused_workspace_deps.push(w.name.clone());
            proof {
                assert(views_of(unused_workspace_deps@) =~= views_of(u_old).push(w.name@));
            }
        }
        proof {
            assert(views_of(unused_workspace_deps@) =~= unused_spec(
                data.workspace_deps@.take(wi + 1),
                commonsv,
                refsv,
            ));
        }
        wi += 1;
    }
    proof {
        assert(data.workspace_deps@.take(data.workspace_deps@.len() as int)
            =~= data.workspace_deps@);
    }
    DependencyAnalysis { common_deps, conflicts, unused_workspace_deps }
}

} // verus!
