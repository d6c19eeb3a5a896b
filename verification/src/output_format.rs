//! The unified result structure handed to rendering, and its deterministic
//! ordering.
//!
//! The engine's internal grouping is insertion-ordered; consumers require a
//! total, explicit order (by dependency name, then version string, then
//! member name), which `Output::sort` applies before any rendering sees the
//! data.

use vstd::prelude::*;
use crate::dependency::{ConflictType, DependencyAnalysis};
use crate::strutil::{
    clone_strings, dec_str, join_with, lex_le, lex_lt, push_dec, push_joined, str_eq, str_le,
    views_of,
};
use crate::version_resolver::VersionMembers;
use crate::VersionResolutionStrategy;

verus! {

/// The full result of one analysis, shaped for rendering.
pub struct Output {
    pub version: String,
    pub workspace: WorkspaceInfo,
    pub summary: Summary,
    pub common_dependencies: Vec<Dependency>,
    pub conflicts: Vec<Conflict>,
    pub unused_workspace_dependencies: Vec<String>,
}

/// Where the analyzed workspace lives and how many members it has.
pub struct WorkspaceInfo {
    pub root: String,
    pub member_count: usize,
}

/// The headline counts of one analysis.
pub struct Summary {
    pub dependencies_to_consolidate: usize,
    pub conflicts_resolved: usize,
    pub conflicts_unresolved: usize,
    pub unused_workspace_deps: usize,
}

/// One dependency to consolidate, as rendered.
pub struct Dependency {
    pub name: String,
    pub version: String,
    pub section: String,
    pub members: Vec<String>,
    pub package: Option<String>,
    pub registry: Option<String>,
    pub default_features: Option<bool>,
    pub resolved_from: Option<Vec<VersionMembers>>,
}

/// One irreconcilable dependency, as rendered.
pub struct Conflict {
    pub name: String,
    pub section: String,
    pub version_specs: Vec<VersionSpec>,
    pub conflict_types: Vec<ConflictType>,
}

/// One observed (version, default-features) pair of a conflict, as rendered.
pub struct VersionSpec {
    pub version: String,
    pub default_features: Option<bool>,
    pub members: Vec<String>,
}

/// How many consolidated dependencies came out of collapsing several
/// versions.
pub open spec fn resolved_count(s: Seq<crate::dependency::CommonDependency>) -> nat
    decreases s.len(),
{
    if s.len() == 0 {
        0
    } else {
        resolved_count(s.drop_last()) + (if s.last().resolved_from is Some {
            1nat
        } else {
            0nat
        })
    }
}

/// How one cloned resolver entry corresponds to its original.
pub open spec fn vm_matches(a: VersionMembers, b: VersionMembers) -> bool {
    a.version == b.version && a.members@ == b.members@
}

/// How one rendered dependency corresponds to one engine result.
pub open spec fn out_dep_matches(d: Dependency, c: crate::dependency::CommonDependency) -> bool {
    &&& d.name == c.name
    &&& d.version == c.version
    &&& d.section@ == c.section.spec_str()
    &&& d.members@ == c.members@
    &&& d.package == c.package
    &&& d.registry == c.registry
    &&& d.default_features == c.default_features
    &&& match (d.resolved_from, c.resolved_from) {
        (None, None) => true,
        (Some(a), Some(b)) => a@.len() == b@.len() && (forall|i: int|
            0 <= i < a@.len() ==> vm_matches(#[trigger] a@[i], b@[i])),
        _ => false,
    }
}

/// How one rendered version spec corresponds to one engine result.
pub open spec fn out_spec_matches(s: VersionSpec, t: crate::dependency::VersionSpec) -> bool {
    s.version == t.version && s.default_features == t.default_features && s.members@ == t.members@
}

/// How one rendered conflict corresponds to one engine result.
pub open spec fn out_conflict_matches(
    d: Conflict,
    c: crate::dependency::ConflictingDependency,
) -> bool {
    &&& d.name == c.name
    &&& d.section@ == c.section.spec_str()
    &&& d.version_specs@.len() == c.version_specs@.len()
    &&& forall|i: int|
        0 <= i < d.version_specs@.len() ==> out_spec_matches(
            #[trigger] d.version_specs@[i],
            c.version_specs@[i],
        )
    &&& d.conflict_types@ == c.conflict_types@
}

/// Clones a list of resolver entries.
fn clone_vm_list(v: &Vec<VersionMembers>) -> (r: Vec<VersionMembers>)
    ensures
        r@.len() == v@.len(),
        forall|i: int| 0 <= i < v@.len() ==> vm_matches(#[trigger] r@[i], v@[i]),
{
    let mut r: Vec<VersionMembers> = Vec::new();
    let mut i: usize = 0;
    while i < v.len()
        invariant
            0 <= i <= v@.len(),
            r@.len() == i,
            forall|j: int| 0 <= j < i ==> vm_matches(#[trigger] r@[j], v@[j]),
        decreases v@.len() - i,
    {
        let e = VersionMembers {
            version: v[i].version.clone(),
            members: clone_strings(&v[i].members),
        };
        proof {
            assert(vm_matches(e, v@[i as int]));
        }
        r.push(e);
        i += 1;
    }
    r
}

impl Output {
    /// Shapes an analysis for rendering, carrying every engine decision
    /// through unchanged and computing the headline counts.
    pub fn new(analysis: &DependencyAnalysis, workspace_root: &str, member_count: usize) -> (r:
        Output)
        ensures
            r.version@ == "1"@,
            r.workspace.root@ == workspace_root@,
            r.workspace.member_count == member_count,
            r.summary.dependencies_to_consolidate == analysis.common_deps@.len(),
            r.summary.conflicts_resolved == resolved_count(analysis.common_deps@),
            r.summary.conflicts_unresolved == analysis.conflicts@.len(),
            r.summary.unused_workspace_deps == analysis.unused_workspace_deps@.len(),
            r.common_dependencies@.len() == analysis.common_deps@.len(),
            forall|i: int|
                0 <= i < analysis.common_deps@.len() ==> out_dep_matches(
                    #[trigger] r.common_dependencies@[i],
                    analysis.common_deps@[i],
                ),
            r.conflicts@.len() == analysis.conflicts@.len(),
            forall|i: int|
                0 <= i < analysis.conflicts@.len() ==> out_conflict_matches(
                    #[trigger] r.conflicts@[i],
                    analysis.conflicts@[i],
                ),
            r.unused_workspace_dependencies@ == analysis.unused_workspace_deps@,
    {
        let mut resolved: usize = 0;
        let mut common_dependencies: Vec<Dependency> = Vec::new();
        let mut i: usize = 0;
        while i < analysis.common_deps.len()
            invariant
                0 <= i <= analysis.common_deps@.len(),
                resolved == resolved_count(analysis.common_deps@.take(i as int)),
                resolved <= i,
                common_dependencies@.len() == i,
                forall|j: int|
                    0 <= j < i ==> out_dep_matches(
                        #[trigger] common_dependencies@[j],
                        analysis.common_deps@[j],
                    ),
            decreases analysis.common_deps@.len() - i,
        {
            proof {
                assert(analysis.common_deps@.take(i + 1).drop_last() =~= analysis.common_deps@.take(
                    i as int,
                ));
                assert(analysis.common_deps@.take(i + 1).last() == analysis.common_deps@[i as int]);
            }
            let c = &analysis.common_deps[i];
            let resolved_from: Option<Vec<VersionMembers>> = match &c.resolved_from {
                Some(rf) => {
                    resolved += 1;
                    Some(clone_vm_list(rf))
                },
                None => None,
            };
            let d = Dependency {
                name: c.name.clone(),
                version: c.version.clone(),
                section: String::from_str(c.section.as_str()),
                members: clone_strings(&c.members),
                package: opt_clone(&c.package),
                registry: opt_clone(&c.registry),
                default_features: c.default_features,
                resolved_from,
            };
            common_dependencies.push(d);
            i += 1;
        }
        proof {
            assert(analysis.common_deps@.take(analysis.common_deps@.len() as int)
                =~= analysis.common_deps@);
        }
        let mut conflicts: Vec<Conflict> = Vec::new();
        let mut ci: usize = 0;
        while ci < analysis.conflicts.len()
            invariant
                0 <= ci <= analysis.conflicts@.len(),
                conflicts@.len() == ci,
                forall|j: int|
                    0 <= j < ci ==> out_conflict_matches(
                        #[trigger] conflicts@[j],
                        analysis.conflicts@[j],
                    ),
            decreases analysis.conflicts@.len() - ci,
        {
            let c = &analysis.conflicts[ci];
            let mut version_specs: Vec<VersionSpec> = Vec::new();
            let mut si: usize = 0;
            while si < c.version_specs.len()
                invariant
                    0 <= ci < analysis.conflicts@.len(),
                    c == analysis.conflicts@[ci as int],
                    0 <= si <= c.version_specs@.len(),
                    version_specs@.len() == si,
                    forall|j: int|
                        0 <= j < si ==> out_spec_matches(
                            #[trigger] version_specs@[j],
                            c.version_specs@[j],
                        ),
                decreases c.version_specs@.len() - si,
            {
                let s = &c.version_specs[si];
                version_specs.push(
                    VersionSpec {
                        version: s.version.clone(),
                        default_features: s.default_features,
                        members: clone_strings(&s.members),
                    },
                );
                si += 1;
            }
            let mut conflict_types: Vec<ConflictType> = Vec::new();
            let mut ti: usize = 0;
            while ti < c.conflict_types.len()
                invariant
                    0 <= ci < analysis.conflicts@.len(),
                    c == analysis.conflicts@[ci as int],
                    0 <= ti <= c.conflict_types@.len(),
                    conflict_types@ == c.conflict_types@.take(ti as int),
                decreases c.conflict_types@.len() - ti,
            {
                conflict_types.push(c.conflict_types[ti]);
                proof {
                    assert(conflict_types@ =~= c.conflict_types@.take(ti + 1));
                }
                ti += 1;
            }
            proof {
                assert(c.conflict_types@.take(c.conflict_types@.len() as int)
                    =~= c.conflict_types@);
            }
            conflicts.push(
                Conflict {
                    name: c.name.clone(),
                    section: String::from_str(c.section.as_str()),
                    version_specs,
                    conflict_types,
                },
            );
            ci += 1;
        }
        Output {
            version: String::from_str("1"),
            workspace: WorkspaceInfo {
                root: String::from_str(workspace_root),
                member_count,
            },
            summary: Summary {
                dependencies_to_consolidate: analysis.common_deps.len(),
                conflicts_resolved: resolved,
                conflicts_unresolved: analysis.conflicts.len(),
                unused_workspace_deps: analysis.unused_workspace_deps.len(),
            },
            common_dependencies,
            conflicts,
            unused_workspace_dependencies: clone_strings(&analysis.unused_workspace_deps),
        }
    }
}

/// Clones an optional string.
fn opt_clone(o: &Option<String>) -> (r: Option<String>)
    ensures
        r == *o,
{
    match o {
        Some(s) => Some(s.clone()),
        None => None,
    }
}

/// The order of rendered dependencies: ascending by name.
pub open spec fn dep_leq() -> spec_fn(Dependency, Dependency) -> bool {
    |a: Dependency, b: Dependency| lex_le(a.name@, b.name@)
}

/// The order of rendered conflicts: ascending by name.
pub open spec fn conflict_leq() -> spec_fn(Conflict, Conflict) -> bool {
    |a: Conflict, b: Conflict| lex_le(a.name@, b.name@)
}

/// The rank a default-features value sorts by: absent first, then false,
/// then true.
pub open spec fn df_rank(o: Option<bool>) -> int {
    match o {
        None => 0,
        Some(false) => 1,
        Some(true) => 2,
    }
}

/// The order of a conflict's version specs: ascending by version string,
/// ties by the default-features value.
pub open spec fn vs_leq() -> spec_fn(VersionSpec, VersionSpec) -> bool {
    |a: VersionSpec, b: VersionSpec|
        lex_lt(a.version@, b.version@) || (a.version@ == b.version@ && df_rank(a.default_features)
            <= df_rank(b.default_features))
}

/// Sorts rendered dependencies by name.
fn sort_dep_vec(v: Vec<Dependency>) -> (r: Vec<Dependency>)
    ensures
        r@ == crate::strutil::sort_by_le(v@, dep_leq()),
{
    let ghost orig = v@;
    let mut rest = v;
    let mut out: Vec<Dependency> = Vec::new();
    proof {
        assert(out@ =~= crate::strutil::sort_by_le(orig.take(0), dep_leq()));
    }
    while rest.len() > 0
        invariant
            rest@.len() <= orig.len(),
            rest@ == orig.skip(orig.len() - rest@.len()),
            out@ == crate::strutil::sort_by_le(orig.take(orig.len() - rest@.len()), dep_leq()),
        decreases rest@.len(),
    {
        let ghost i = orig.len() - rest@.len();
        let x = rest.remove(0);
        proof {
            assert(orig.skip(i as int)[0] == orig[i as int]);
            assert(x == orig[i as int]);
            assert(rest@ =~= orig.skip(i + 1));
            assert(orig.take(i + 1).drop_last() =~= orig.take(i as int));
            assert(orig.take(i + 1).last() == orig[i as int]);
        }
        let mut j: usize = out.len();
        while j > 0 && !str_le(out[j - 1].name.as_str(), x.name.as_str())
            invariant
                0 <= j <= out@.len(),
                forall|k: int| j <= k < out@.len() ==> !dep_leq()(#[trigger] out@[k], x),
            decreases j,
        {
            proof {
                assert(!dep_leq()(out@[j - 1], x));
            }
            j -= 1;
        }
        proof {
            if j > 0 {
                assert(dep_leq()(out@[j - 1], x));
            }
            crate::strutil::lemma_insert_by_le_at(out@, x, dep_leq(), j as int);
        }
        let ghost out_old = out@;
        out.insert(j, x);
        proof {
            assert(out@ =~= out_old.take(j as int) + seq![x] + out_old.skip(j as int));
            assert(out@ == crate::strutil::insert_by_le(out_old, x, dep_leq()));
        }
    }
    proof {
        assert(orig.take(orig.len() as int) =~= orig);
    }
    out
}

/// Sorts rendered conflicts by name.
fn sort_conflict_vec(v: Vec<Conflict>) -> (r: Vec<Conflict>)
    ensures
        r@ == crate::strutil::sort_by_le(v@, conflict_leq()),
{
    let ghost orig = v@;
    let mut rest = v;
    let mut out: Vec<Conflict> = Vec::new();
    proof {
        assert(out@ =~= crate::strutil::sort_by_le(orig.take(0), conflict_leq()));
    }
    while rest.len() > 0
        invariant
            rest@.len() <= orig.len(),
            rest@ == orig.skip(orig.len() - rest@.len()),
            out@ == crate::strutil::sort_by_le(
                orig.take(orig.len() - rest@.len()),
                conflict_leq(),
            ),
        decreases rest@.len(),
    {
        let ghost i = orig.len() - rest@.len();
        let x = rest.remove(0);
        proof {
            assert(orig.skip(i as int)[0] == orig[i as int]);
            assert(x == orig[i as int]);
            assert(rest@ =~= orig.skip(i + 1));
            assert(orig.take(i + 1).drop_last() =~= orig.take(i as int));
            assert(orig.take(i + 1).last() == orig[i as int]);
        }
        let mut j: usize = out.len();
        while j > 0 && !str_le(out[j - 1].name.as_str(), x.name.as_str())
            invariant
                0 <= j <= out@.len(),
                forall|k: int| j <= k < out@.len() ==> !conflict_leq()(#[trigger] out@[k], x),
            decreases j,
        {
            proof {
                assert(!conflict_leq()(out@[j - 1], x));
            }
            j -= 1;
        }
        proof {
            if j > 0 {
                assert(conflict_leq()(out@[j - 1], x));
            }
            crate::strutil::lemma_insert_by_le_at(out@, x, conflict_leq(), j as int);
        }
        let ghost out_old = out@;
        out.insert(j, x);
        proof {
            assert(out@ =~= out_old.take(j as int) + seq![x] + out_old.skip(j as int));
            assert(out@ == crate::strutil::insert_by_le(out_old, x, conflict_leq()));
        }
    }
    proof {
        assert(orig.take(orig.len() as int) =~= orig);
    }
    out
}

/// Decides the version-spec order.
fn vs_le_exec(a: &VersionSpec, b: &VersionSpec) -> (r: bool)
    ensures
        r == vs_leq()(*a, *b),
{
    let le = str_le(a.version.as_str(), b.version.as_str());
    let eq = str_eq(a.version.as_str(), b.version.as_str());
    proof {
        crate::strutil::lemma_lex_lt_irrefl(a.version@);
    }
    if le && !eq {
        true
    } else if eq {
        df_rank_exec(a.default_features) <= df_rank_exec(b.default_features)
    } else {
        false
    }
}

/// The rank a default-features value sorts by.
fn df_rank_exec(o: Option<bool>) -> (r: u8)
    ensures
        r as int == df_rank(o),
{
    match o {
        None => 0,
        Some(false) => 1,
        Some(true) => 2,
    }
}

/// Sorts a conflict's version specs by version, ties by default-features.
fn sort_vs_vec(v: Vec<VersionSpec>) -> (r: Vec<VersionSpec>)
    ensures
        r@ == crate::strutil::sort_by_le(v@, vs_leq()),
{
    let ghost orig = v@;
    let mut rest = v;
    let mut out: Vec<VersionSpec> = Vec::new();
    proof {
        assert(out@ =~= crate::strutil::sort_by_le(orig.take(0), vs_leq()));
    }
    while rest.len() > 0
        invariant
            rest@.len() <= orig.len(),
            rest@ == orig.skip(orig.len() - rest@.len()),
            out@ == crate::strutil::sort_by_le(orig.take(orig.len() - rest@.len()), vs_leq()),
        decreases rest@.len(),
    {
        let ghost i = orig.len() - rest@.len();
        let x = rest.remove(0);
        proof {
            assert(orig.skip(i as int)[0] == orig[i as int]);
            assert(x == orig[i as int]);
            assert(rest@ =~= orig.skip(i + 1));
            assert(orig.take(i + 1).drop_last() =~= orig.take(i as int));
            assert(orig.take(i + 1).last() == orig[i as int]);
        }
        let mut j: usize = out.len();
        while j > 0 && !vs_le_exec(&out[j - 1], &x)
            invariant
                0 <= j <= out@.len(),
                forall|k: int| j <= k < out@.len() ==> !vs_leq()(#[trigger] out@[k], x),
            decreases j,
        {
            j -= 1;
        }
        proof {
            if j > 0 {
                assert(vs_leq()(out@[j - 1], x));
            }
            crate::strutil::lemma_insert_by_le_at(out@, x, vs_leq(), j as int);
        }
        let ghost out_old = out@;
        out.insert(j, x);
        proof {
            assert(out@ =~= out_old.take(j as int) + seq![x] + out_old.skip(j as int));
            assert(out@ == crate::strutil::insert_by_le(out_old, x, vs_leq()));
        }
    }
    proof {
        assert(orig.take(orig.len() as int) =~= orig);
    }
    out
}

/// How a dependency looks after its inner lists are put into order: the
/// members sorted, and the members of every resolved-from entry sorted,
/// everything else unchanged.
pub open spec fn dep_norm_rel(m: Dependency, c: Dependency) -> bool {
    &&& m.name == c.name
    &&& m.version == c.version
    &&& m.section == c.section
    &&& m.members@ == crate::strutil::sort_strs(c.members@)
    &&& m.package == c.package
    &&& m.registry == c.registry
    &&& m.default_features == c.default_features
    &&& match (m.resolved_from, c.resolved_from) {
        (None, None) => true,
        (Some(a), Some(b)) => a@.len() == b@.len() && (forall|i: int|
            0 <= i < a@.len() ==> (#[trigger] a@[i]).version == b@[i].version && a@[i].members@
                == crate::strutil::sort_strs(b@[i].members@)),
        _ => false,
    }
}

/// Elementwise `dep_norm_rel`.
pub open spec fn deps_normalized(m: Seq<Dependency>, c: Seq<Dependency>) -> bool {
    m.len() == c.len() && (forall|i: int|
        0 <= i < m.len() ==> dep_norm_rel(#[trigger] m[i], c[i]))
}

/// How a version spec looks after its member list is put into order.
pub open spec fn spec_norm_rel(m: VersionSpec, c: VersionSpec) -> bool {
    m.version == c.version && m.default_features == c.default_features && m.members@
        == crate::strutil::sort_strs(c.members@)
}

/// Elementwise `spec_norm_rel`.
pub open spec fn specs_normalized(m: Seq<VersionSpec>, c: Seq<VersionSpec>) -> bool {
    m.len() == c.len() && (forall|i: int|
        0 <= i < m.len() ==> spec_norm_rel(#[trigger] m[i], c[i]))
}

/// How a conflict looks after its version specs are normalized and ordered.
pub open spec fn conflict_norm_rel(m: Conflict, c: Conflict) -> bool {
    &&& m.name == c.name
    &&& m.section == c.section
    &&& m.conflict_types@ == c.conflict_types@
    &&& exists|sm: Seq<VersionSpec>|
        #[trigger] specs_normalized(sm, c.version_specs@) && m.version_specs@
            == crate::strutil::sort_by_le(sm, vs_leq())
}

/// Elementwise `conflict_norm_rel`.
pub open spec fn conflicts_normalized(m: Seq<Conflict>, c: Seq<Conflict>) -> bool {
    m.len() == c.len() && (forall|i: int|
        0 <= i < m.len() ==> conflict_norm_rel(#[trigger] m[i], c[i]))
}

impl Output {
    /// Applies the presentation order to every list: dependencies and
    /// conflicts ascending by name, each member list ascending, a
    /// conflict's version specs ascending by version then default-features,
    /// and the unused names ascending.
    pub fn sort(&mut self)
        ensures
            final(self).version == old(self).version,
            final(self).workspace == old(self).workspace,
            final(self).summary == old(self).summary,
            exists|m: Seq<Dependency>|
                #[trigger] deps_normalized(m, old(self).common_dependencies@)
                    && final(self).common_dependencies@ == crate::strutil::sort_by_le(
                    m,
                    dep_leq(),
                ),
            exists|m: Seq<Conflict>|
                #[trigger] conflicts_normalized(m, old(self).conflicts@) && final(self).conflicts@
                    == crate::strutil::sort_by_le(m, conflict_leq()),
            final(self).unused_workspace_dependencies@ == crate::strutil::sort_strs(
                old(self).unused_workspace_dependencies@,
            ),
    {
        let ghost orig_deps = self.common_dependencies@;
        let mut deps: Vec<Dependency> = Vec::new();
        core::mem::swap(&mut deps, &mut self.common_dependencies);
        let mut mid: Vec<Dependency> = Vec::new();
        while deps.len() > 0
            invariant
                deps@.len() <= orig_deps.len(),
                deps@ == orig_deps.skip(orig_deps.len() - deps@.len()),
                mid@.len() == orig_deps.len() - deps@.len(),
                forall|j: int|
                    0 <= j < mid@.len() ==> dep_norm_rel(#[trigger] mid@[j], orig_deps[j]),
            decreases deps@.len(),
        {
            let ghost i = orig_deps.len() - deps@.len();
            let mut d = deps.remove(0);
            proof {
                assert(orig_deps.skip(i as int)[0] == orig_deps[i as int]);
                assert(d == orig_deps[i as int]);
                assert(deps@ =~= orig_deps.skip(i + 1));
            }
            let mut members: Vec<String> = Vec::new();
            core::mem::swap(&mut members, &mut d.members);
            d.members = crate::strutil::sort_string_vec(members);
            let mut rf_opt: Option<Vec<VersionMembers>> = None;
            core::mem::swap(&mut rf_opt, &mut d.resolved_from);
            d.resolved_from = match rf_opt {
                Some(rf) => {
                    let ghost rf_orig = rf@;
                    let mut rest = rf;
                    let mut out: Vec<VersionMembers> = Vec::new();
                    while rest.len() > 0
                        invariant
                            rest@.len() <= rf_orig.len(),
                            rest@ == rf_orig.skip(rf_orig.len() - rest@.len()),
                            out@.len() == rf_orig.len() - rest@.len(),
                            forall|j: int|
                                0 <= j < out@.len() ==> (#[trigger] out@[j]).version
                                    == rf_orig[j].version && out@[j].members@
                                    == crate::strutil::sort_strs(rf_orig[j].members@),
                        decreases rest@.len(),
                    {
                        let ghost k = rf_orig.len() - rest@.len();
                        let mut e = rest.remove(0);
                        proof {
                            assert(rf_orig.skip(k as int)[0] == rf_orig[k as int]);
                            assert(e == rf_orig[k as int]);
                            assert(rest@ =~= rf_orig.skip(k + 1));
                        }
                        let mut ms: Vec<String> = Vec::new();
                        core::mem::swap(&mut ms, &mut e.members);
                        e.members = crate::strutil::sort_string_vec(ms);
                        out.push(e);
                    }
                    Some(out)
                },
                None => None,
            };
            proof {
                assert(dep_norm_rel(d, orig_deps[i as int]));
            }
            mid.push(d);
        }
        proof {
            assert(deps_normalized(mid@, orig_deps));
        }
        let ghost midv = mid@;
        self.common_dependencies = sort_dep_vec(mid);

        let ghost orig_confs = self.conflicts@;
        let mut confs: Vec<Conflict> = Vec::new();
        core::mem::swap(&mut confs, &mut self.conflicts);
        let mut midc: Vec<Conflict> = Vec::new();
        while confs.len() > 0
            invariant
                confs@.len() <= orig_confs.len(),
                confs@ == orig_confs.skip(orig_confs.len() - confs@.len()),
                midc@.len() == orig_confs.len() - confs@.len(),
                forall|j: int|
                    0 <= j < midc@.len() ==> conflict_norm_rel(#[trigger] midc@[j], orig_confs[j]),
            decreases confs@.len(),
        {
            let ghost i = orig_confs.len() - confs@.len();
            let mut c = confs.remove(0);
            proof {
                assert(orig_confs.skip(i as int)[0] == orig_confs[i as int]);
                assert(c == orig_confs[i as int]);
                assert(confs@ =~= orig_confs.skip(i + 1));
            }
            let mut specs: Vec<VersionSpec> = Vec::new();
            core::mem::swap(&mut specs, &mut c.version_specs);
            let ghost specs_orig = specs@;
            let mut rest = specs;
            let mut sm: Vec<VersionSpec> = Vec::new();
            while rest.len() > 0
                invariant
                    rest@.len() <= specs_orig.len(),
                    rest@ == specs_orig.skip(specs_orig.len() - rest@.len()),
                    sm@.len() == specs_orig.len() - rest@.len(),
                    forall|j: int|
                        0 <= j < sm@.len() ==> spec_norm_rel(#[trigger] sm@[j], specs_orig[j]),
                decreases rest@.len(),
            {
                let ghost k = specs_orig.len() - rest@.len();
                let mut s = rest.remove(0);
                proof {
                    assert(specs_orig.skip(k as int)[0] == specs_orig[k as int]);
                    assert(s == specs_orig[k as int]);
                    assert(rest@ =~= specs_orig.skip(k + 1));
                }
                let mut ms: Vec<String> = Vec::new();
                core::mem::swap(&mut ms, &mut s.members);
                s.members = crate::strutil::sort_string_vec(ms);
                proof {
                    assert(spec_norm_rel(s, specs_orig[k as int]));
                }
                sm.push(s);
            }
            let ghost smv = sm@;
            c.version_specs = sort_vs_vec(sm);
            proof {
                assert(specs_normalized(smv, specs_orig));
                assert(conflict_norm_rel(c, orig_confs[i as int]));
            }
            midc.push(c);
        }
        proof {
            assert(conflicts_normalized(midc@, orig_confs));
        }
        let ghost midcv = midc@;
        self.conflicts = sort_conflict_vec(midc);

        let mut unused: Vec<String> = Vec::new();
        core::mem::swap(&mut unused, &mut self.unused_workspace_dependencies);
        self.unused_workspace_dependencies = crate::strutil::sort_string_vec(unused);
        proof {
            assert(deps_normalized(midv, orig_deps));
            assert(conflicts_normalized(midcv, orig_confs));
        }
    }
}

/// The name a policy is reported under.
pub open spec fn strategy_name(s: VersionResolutionStrategy) -> Seq<char> {
    match s {
        VersionResolutionStrategy::Skip => "Skip"@,
        VersionResolutionStrategy::Highest => "Highest"@,
        VersionResolutionStrategy::HighestCompatible => "HighestCompatible"@,
        VersionResolutionStrategy::Lowest => "Lowest"@,
        VersionResolutionStrategy::Fail => "Fail"@,
    }
}

/// The summary block of the report.
pub open spec fn summary_text(s: Summary) -> Seq<char> {
    "\nSummary:\n"@ + "  "@ + dec_str(s.dependencies_to_consolidate as nat)
        + " dependencies to consolidate\n"@ + (if s.conflicts_resolved > 0 {
        "  "@ + dec_str(s.conflicts_resolved as nat) + " version conflicts resolved\n"@
    } else {
        Seq::empty()
    }) + (if s.conflicts_unresolved > 0 {
        "  "@ + dec_str(s.conflicts_unresolved as nat) + " conflicts could not resolve\n"@
    } else {
        Seq::empty()
    }) + (if s.unused_workspace_deps > 0 {
        "  "@ + dec_str(s.unused_workspace_deps as nat) + " unused workspace dependencies\n"@
    } else {
        Seq::empty()
    }) + "\n"@
}

/// The line reporting one dependency to consolidate.
pub open spec fn dep_line(d: Dependency) -> Seq<char> {
    "  "@ + d.name@ + " = \""@ + d.version@ + "\" in: "@ + join_with(views_of(d.members@), ", "@)
        + "\n"@
}

/// The lines reporting the dependencies to consolidate, in order.
pub open spec fn dep_lines(s: Seq<Dependency>) -> Seq<char>
    decreases s.len(),
{
    if s.len() == 0 {
        Seq::empty()
    } else {
        dep_lines(s.drop_last()) + dep_line(s.last())
    }
}

/// The version strings a resolved dependency collapsed.
pub open spec fn rf_versions(rf: Seq<VersionMembers>) -> Seq<String> {
    rf.map_values(|vm: VersionMembers| vm.version)
}

/// The line reporting how one conflict was resolved: the original versions
/// in ascending order, then the version that replaced them.
pub open spec fn resolved_line(d: Dependency) -> Seq<char> {
    "  "@ + d.name@ + ": "@ + join_with(
        views_of(crate::strutil::sort_strs(rf_versions(d.resolved_from.unwrap()@))),
        ", "@,
    ) + " → "@ + d.version@ + "\n"@
}

/// The lines reporting resolved conflicts, one per dependency that
/// collapsed several versions.
pub open spec fn resolved_lines(s: Seq<Dependency>) -> Seq<char>
    decreases s.len(),
{
    if s.len() == 0 {
        Seq::empty()
    } else {
        resolved_lines(s.drop_last()) + (if s.last().resolved_from is Some {
            resolved_line(s.last())
        } else {
            Seq::empty()
        })
    }
}

/// Whether any dependency collapsed several versions.
pub open spec fn has_resolved(s: Seq<Dependency>) -> bool {
    exists|i: int| 0 <= i < s.len() && (#[trigger] s[i]).resolved_from is Some
}

/// The phrase a conflict kind is reported under.
pub open spec fn reason_name(t: ConflictType) -> Seq<char> {
    match t {
        ConflictType::VersionResolution => "version resolution"@,
        ConflictType::DefaultFeatures => "default-features differ"@,
    }
}

/// A conflict's kinds, joined for its heading.
pub open spec fn reasons_text(ts: Seq<ConflictType>) -> Seq<char> {
    join_with(ts.map_values(|t: ConflictType| reason_name(t)), ", "@)
}

/// How a version is displayed inside a conflict: with its explicit
/// default-features value when one was recorded.
pub open spec fn df_suffix(o: Option<bool>) -> Seq<char> {
    match o {
        Some(false) => " (default-features=false)"@,
        Some(true) => " (default-features=true)"@,
        None => Seq::empty(),
    }
}

/// The line reporting one observed (version, default-features) pair;
/// nothing when no member declared it.
pub open spec fn vspec_line(s: VersionSpec) -> Seq<char> {
    if s.members@.len() == 0 {
        Seq::empty()
    } else {
        "    "@ + s.version@ + df_suffix(s.default_features) + " in: "@ + join_with(
            views_of(s.members@),
            ", "@,
        ) + "\n"@
    }
}

/// The lines reporting a conflict's observations, in order.
pub open spec fn vspec_lines(s: Seq<VersionSpec>) -> Seq<char>
    decreases s.len(),
{
    if s.len() == 0 {
        Seq::empty()
    } else {
        vspec_lines(s.drop_last()) + vspec_line(s.last())
    }
}

/// The block reporting one conflict.
pub open spec fn conflict_block(c: Conflict) -> Seq<char> {
    "  "@ + c.name@ + " ("@ + reasons_text(c.conflict_types@) + "):\n"@ + vspec_lines(
        c.version_specs@,
    )
}

/// The blocks reporting every conflict, in order.
pub open spec fn conflict_blocks(s: Seq<Conflict>) -> Seq<char>
    decreases s.len(),
{
    if s.len() == 0 {
        Seq::empty()
    } else {
        conflict_blocks(s.drop_last()) + conflict_block(s.last())
    }
}

/// The lines naming the unused shared-pool entries, in order.
pub open spec fn unused_lines(s: Seq<String>) -> Seq<char>
    decreases s.len(),
{
    if s.len() == 0 {
        Seq::empty()
    } else {
        unused_lines(s.drop_last()) + "  "@ + s.last()@ + "\n"@
    }
}

/// The whole human-readable report.
pub open spec fn spec_text(o: Output, strategy: VersionResolutionStrategy) -> Seq<char> {
    summary_text(o.summary) + commons_text(o.common_dependencies@, strategy) + conflicts_text(
        o.conflicts@,
    ) + unused_text(o.unused_workspace_dependencies@)
}

/// Decides whether any dependency collapsed several versions.
fn has_resolved_exec(v: &Vec<Dependency>) -> (r: bool)
    ensures
        r == has_resolved(v@),
{
    let mut i: usize = 0;
    while i < v.len()
        invariant
            0 <= i <= v@.len(),
            forall|j: int| 0 <= j < i ==> !((#[trigger] v@[j]).resolved_from is Some),
        decreases v@.len() - i,
    {
        if v[i].resolved_from.is_some() {
            return true;
        }
        i += 1;
    }
    false
}

/// The name a policy is reported under.
fn strategy_label(s: &VersionResolutionStrategy) -> (r: &str)
    ensures
        r@ == strategy_name(*s),
{
    match s {
        VersionResolutionStrategy::Skip => "Skip",
        VersionResolutionStrategy::Highest => "Highest",
        VersionResolutionStrategy::HighestCompatible => "HighestCompatible",
        VersionResolutionStrategy::Lowest => "Lowest",
        VersionResolutionStrategy::Fail => "Fail",
    }
}

/// The consolidation section of the report.
pub open spec fn commons_text(deps: Seq<Dependency>, strategy: VersionResolutionStrategy) -> Seq<
    char,
> {
    if deps.len() > 0 {
        "Will consolidate:\n"@ + dep_lines(deps) + "\n"@ + (if has_resolved(deps) {
            "Resolved conflicts (using "@ + strategy_name(strategy) + "):\n"@ + resolved_lines(
                deps,
            ) + "\n"@
        } else {
            Seq::empty()
        })
    } else {
        "No dependencies to consolidate.\n\n"@
    }
}

/// The conflict section of the report.
pub open spec fn conflicts_text(conflicts: Seq<Conflict>) -> Seq<char> {
    if conflicts.len() > 0 {
        "Could not resolve:\n"@ + conflict_blocks(conflicts) + "\n"@
    } else {
        Seq::empty()
    }
}

/// The unused section of the report.
pub open spec fn unused_text(unused: Seq<String>) -> Seq<char> {
    if unused.len() > 0 {
        "Unused workspace dependencies:\n"@ + unused_lines(unused) + "\n"@
    } else {
        Seq::empty()
    }
}

/// Appends the summary block.
#[verifier::rlimit(60)]
fn append_summary(out: &mut String, s: &Summary)
    ensures
        final(out)@ == old(out)@ + summary_text(*s),
{
    out.append("\nSummary:\n");
    out.append("  ");
    push_dec(out, s.dependencies_to_consolidate as u64);
    out.append(" dependencies to consolidate\n");
    if s.conflicts_resolved > 0 {
        out.append("  ");
        push_dec(out, s.conflicts_resolved as u64);
        out.append(" version conflicts resolved\n");
    }
    if s.conflicts_unresolved > 0 {
        out.append("  ");
        push_dec(out, s.conflicts_unresolved as u64);
        out.append(" conflicts could not resolve\n");
    }
    if s.unused_workspace_deps > 0 {
        out.append("  ");
        push_dec(out, s.unused_workspace_deps as u64);
        out.append(" unused workspace dependencies\n");
    }
    out.append("\n");
    proof {
        assert(out@ =~= old(out)@ + summary_text(*s));
    }
}

/// Appends the consolidation section.
fn append_commons(out: &mut String, deps: &Vec<Dependency>, strategy: &VersionResolutionStrategy)
    ensures
        final(out)@ == old(out)@ + commons_text(deps@, *strategy),
{
    if deps.len() == 0 {
        out.append("No dependencies to consolidate.\n\n");
        proof {
            assert(out@ =~= old(out)@ + commons_text(deps@, *strategy));
        }
        return;
    }
    out.append("Will consolidate:\n");
    let ghost base = out@;
    let mut i: usize = 0;
    while i < deps.len()
        invariant
            0 <= i <= deps@.len(),
            out@ == base + dep_lines(deps@.take(i as int)),
        decreases deps@.len() - i,
    {
        proof {
            assert(deps@.take(i + 1).drop_last() =~= deps@.take(i as int));
            assert(deps@.take(i + 1).last() == deps@[i as int]);
        }
        let d = &deps[i];
        out.append("  ");
        out.append(d.name.as_str());
        out.append(" = \"");
        out.append(d.version.as_str());
        out.append("\" in: ");
        push_joined(out, &d.members, ", ");
        out.append("\n");
        proof {
            assert(out@ =~= base + dep_lines(deps@.take(i + 1)));
        }
        i += 1;
    }
    proof {
        assert(deps@.take(deps@.len() as int) =~= deps@);
    }
    out.append("\n");
    if has_resolved_exec(deps) {
        out.append("Resolved conflicts (using ");
        out.append(strategy_label(strategy));
        out.append("):\n");
        let ghost base3 = out@;
        let mut ri: usize = 0;
        while ri < deps.len()
            invariant
                0 <= ri <= deps@.len(),
                out@ == base3 + resolved_lines(deps@.take(ri as int)),
            decreases deps@.len() - ri,
        {
            proof {
                assert(deps@.take(ri + 1).drop_last() =~= deps@.take(ri as int));
                assert(deps@.take(ri + 1).last() == deps@[ri as int]);
            }
            let d = &deps[ri];
            match &d.resolved_from {
                Some(rf) => {
                    let mut versions: Vec<String> = Vec::new();
                    let mut vi: usize = 0;
                    while vi < rf.len()
                        invariant
                            0 <= vi <= rf@.len(),
                            versions@ == rf_versions(rf@).take(vi as int),
                        decreases rf@.len() - vi,
                    {
                        versions.push(rf[vi].version.clone());
                        proof {
                            assert(versions@ =~= rf_versions(rf@).take(vi + 1));
                        }
                        vi += 1;
                    }
                    proof {
                        assert(rf_versions(rf@).take(rf@.len() as int) =~= rf_versions(rf@));
                    }
                    let sorted = crate::strutil::sort_string_vec(versions);
                    out.append("  ");
                    out.append(d.name.as_str());
                    out.append(": ");
                    push_joined(out, &sorted, ", ");
                    out.append(" → ");
                    out.append(d.version.as_str());
                    out.append("\n");
                    proof {
                        assert(out@ =~= base3 + resolved_lines(deps@.take(ri + 1)));
                    }
                },
                None => {
                    proof {
                        assert(out@ =~= base3 + resolved_lines(deps@.take(ri + 1)));
                    }
                },
            }
            ri += 1;
        }
        proof {
            assert(deps@.take(deps@.len() as int) =~= deps@);
        }
        out.append("\n");
    }
    proof {
        assert(out@ =~= old(out)@ + commons_text(deps@, *strategy));
    }
}

/// Appends one conflict's block.
fn append_conflict_block(out: &mut String, c: &Conflict)
    ensures
        final(out)@ == old(out)@ + conflict_block(*c),
{
    let mut reasons: Vec<String> = Vec::new();
    let ghost rn = c.conflict_types@.map_values(|t: ConflictType| reason_name(t));
    let mut ti: usize = 0;
    while ti < c.conflict_types.len()
        invariant
            rn == c.conflict_types@.map_values(|t: ConflictType| reason_name(t)),
            rn.len() == c.conflict_types@.len(),
            0 <= ti <= c.conflict_types@.len(),
            views_of(reasons@) == rn.take(ti as int),
        decreases c.conflict_types@.len() - ti,
    {
        let label = match c.conflict_types[ti] {
            ConflictType::VersionResolution => "version resolution",
            ConflictType::DefaultFeatures => "default-features differ",
        };
        proof {
            assert(label@ == rn[ti as int]);
        }
        let ghost r_old = views_of(reasons@);
        reasons.push(String::from_str(label));
        proof {
            assert(views_of(reasons@) =~= r_old.push(label@));
            assert(rn.take(ti + 1) =~= rn.take(ti as int).push(rn[ti as int]));
        }
        ti += 1;
    }
    proof {
        assert(rn.take(rn.len() as int) =~= rn);
    }
    out.append("  ");
    out.append(c.name.as_str());
    out.append(" (");
    push_joined(out, &reasons, ", ");
    out.append("):\n");
    let ghost base = out@;
    let mut si: usize = 0;
    while si < c.version_specs.len()
        invariant
            0 <= si <= c.version_specs@.len(),
            out@ == base + vspec_lines(c.version_specs@.take(si as int)),
        decreases c.version_specs@.len() - si,
    {
        proof {
            assert(c.version_specs@.take(si + 1).drop_last() =~= c.version_specs@.take(si as int));
            assert(c.version_specs@.take(si + 1).last() == c.version_specs@[si as int]);
        }
        let s = &c.version_specs[si];
        if s.members.len() > 0 {
            out.append("    ");
            out.append(s.version.as_str());
            match s.default_features {
                Some(false) => out.append(" (default-features=false)"),
                Some(true) => out.append(" (default-features=true)"),
                None => {},
            }
            out.append(" in: ");
            push_joined(out, &s.members, ", ");
            out.append("\n");
        }
        proof {
            assert(out@ =~= base + vspec_lines(c.version_specs@.take(si + 1)));
        }
        si += 1;
    }
    proof {
        assert(c.version_specs@.take(c.version_specs@.len() as int) =~= c.version_specs@);
        assert(out@ =~= old(out)@ + conflict_block(*c));
    }
}

/// Appends the conflict section.
fn append_conflicts(out: &mut String, conflicts: &Vec<Conflict>)
    ensures
        final(out)@ == old(out)@ + conflicts_text(conflicts@),
{
    if conflicts.len() == 0 {
        proof {
            assert(out@ =~= old(out)@ + conflicts_text(conflicts@));
        }
        return;
    }
    out.append("Could not resolve:\n");
    let ghost base = out@;
    let mut ci: usize = 0;
    while ci < conflicts.len()
        invariant
            0 <= ci <= conflicts@.len(),
            out@ == base + conflict_blocks(conflicts@.take(ci as int)),
        decreases conflicts@.len() - ci,
    {
        proof {
            assert(conflicts@.take(ci + 1).drop_last() =~= conflicts@.take(ci as int));
            assert(conflicts@.take(ci + 1).last() == conflicts@[ci as int]);
        }
        append_conflict_block(out, &conflicts[ci]);
        proof {
            assert(out@ =~= base + conflict_blocks(conflicts@.take(ci + 1)));
        }
        ci += 1;
    }
    proof {
        assert(conflicts@.take(conflicts@.len() as int) =~= conflicts@);
    }
    out.append("\n");
    proof {
        assert(out@ =~= old(out)@ + conflicts_text(conflicts@));
    }
}

/// Appends the unused section.
fn append_unused(out: &mut String, unused: &Vec<String>)
    ensures
        final(out)@ == old(out)@ + unused_text(unused@),
{
    if unused.len() == 0 {
        proof {
            assert(out@ =~= old(out)@ + unused_text(unused@));
        }
        return;
    }
    out.append("Unused workspace dependencies:\n");
    let ghost base = out@;
    let mut ui: usize = 0;
    while ui < unused.len()
        invariant
            0 <= ui <= unused@.len(),
            out@ == base + unused_lines(unused@.take(ui as int)),
        decreases unused@.len() - ui,
    {
        proof {
            assert(unused@.take(ui + 1).drop_last() =~= unused@.take(ui as int));
            assert(unused@.take(ui + 1).last() == unused@[ui as int]);
        }
        out.append("  ");
        out.append(unused[ui].as_str());
        out.append("\n");
        proof {
            assert(out@ =~= base + unused_lines(unused@.take(ui + 1)));
        }
        ui += 1;
    }
    proof {
        assert(unused@.take(unused@.len() as int) =~= unused@);
    }
    out.append("\n");
    proof {
        assert(out@ =~= old(out)@ + unused_text(unused@));
    }
}

impl Output {
    /// Renders the report as human-readable text.
    pub fn to_text(&self, resolution_strategy: &VersionResolutionStrategy) -> (r: String)
        ensures
            r@ == spec_text(*self, *resolution_strategy),
    {
        let mut out = String::new();
        append_summary(&mut out, &self.summary);
        append_commons(&mut out, &self.common_dependencies, resolution_strategy);
        append_conflicts(&mut out, &self.conflicts);
        append_unused(&mut out, &self.unused_workspace_dependencies);
        proof {
            assert(out@ =~= spec_text(*self, *resolution_strategy));
        }
        out
    }
}

/// The one-line completion summary.
pub open spec fn spec_summary_line(n: nat) -> Seq<char> {
    "Consolidated "@ + dec_str(n) + " dependencies\n"@
}

/// Renders the completion summary.
pub fn format_summary(common_deps_count: usize) -> (r: String)
    ensures
        r@ == spec_summary_line(common_deps_count as nat),
{
    let mut out = String::new();
    out.append("Consolidated ");
    push_dec(&mut out, common_deps_count as u64);
    out.append(" dependencies\n");
    proof {
        assert(out@ =~= spec_summary_line(common_deps_count as nat));
    }
    out
}

} // verus!
