//! The discovered workspace: its root manifest and its members, and the
//! exclusion of members by glob pattern.
//!
//! Discovery itself runs `cargo metadata` and lives with the caller; the
//! engine only receives the resulting names and paths.

use vstd::prelude::*;
use crate::strutil::views_of;

verus! {

/// The discovered workspace structure.
pub struct WorkspaceInfo {
    pub root_manifest: String,
    pub members: Vec<MemberInfo>,
}

/// One workspace member: its package name and the path of its manifest.
pub struct MemberInfo {
    pub name: String,
    pub manifest_path: String,
}

/// Whether the glob pattern written in `pattern` matches `name`: the verdict
/// of `glob::Pattern::matches`, or false when the pattern is invalid.
pub uninterp spec fn glob_match(pattern: Seq<char>, name: Seq<char>) -> bool;

/// Relies on `glob::Pattern::new` and `glob::Pattern::matches`: the verdict
/// depends on the pattern text and the name alone, and an invalid pattern
/// matches nothing.
#[verifier::external_body]
fn pattern_matches(pattern: &str, name: &str) -> (r: bool)
    ensures
        r == glob_match(pattern@, name@),
{
    match glob::Pattern::new(pattern) {
        Ok(p) => p.matches(name),
        Err(_) => false,
    }
}

/// Whether any of the patterns matches the name.
pub open spec fn matches_any(patterns: Seq<Seq<char>>, name: Seq<char>) -> bool {
    exists|i: int| 0 <= i < patterns.len() && glob_match(#[trigger] patterns[i], name)
}

/// Decides whether any of the patterns matches the name.
fn matches_any_exec(patterns: &Vec<String>, name: &str) -> (r: bool)
    ensures
        r == matches_any(views_of(patterns@), name@),
{
    let ghost pv = views_of(patterns@);
    let mut i: usize = 0;
    while i < patterns.len()
        invariant
            pv == views_of(patterns@),
            pv.len() == patterns@.len(),
            0 <= i <= patterns@.len(),
            forall|j: int| 0 <= j < i ==> !glob_match(#[trigger] pv[j], name@),
        decreases patterns@.len() - i,
    {
        proof {
            assert(pv[i as int] == patterns@[i as int]@);
        }
        if pattern_matches(patterns[i].as_str(), name) {
            return true;
        }
        i += 1;
    }
    false
}

/// The members whose names no pattern matches, in order.
pub open spec fn retained_members(members: Seq<MemberInfo>, patterns: Seq<Seq<char>>) -> Seq<
    MemberInfo,
>
    decreases members.len(),
{
    if members.len() == 0 {
        Seq::empty()
    } else {
        retained_members(members.drop_last(), patterns) + (if !matches_any(
            patterns,
            members.last().name@,
        ) {
            seq![members.last()]
        } else {
            Seq::<MemberInfo>::empty()
        })
    }
}

impl WorkspaceInfo {
    /// Drops every member whose name matches one of the glob patterns and
    /// reports how many were dropped. An empty pattern list leaves the
    /// members untouched.
    pub fn filter_by_patterns(&mut self, patterns: &Vec<String>) -> (r: usize)
        ensures
            final(self).root_manifest == old(self).root_manifest,
            patterns@.len() == 0 ==> final(self).members == old(self).members,
            patterns@.len() > 0 ==> final(self).members@ == retained_members(
                old(self).members@,
                views_of(patterns@),
            ),
            r == old(self).members@.len() - final(self).members@.len(),
    {
        if patterns.len() == 0 {
            return 0;
        }
        let ghost pv = views_of(patterns@);
        let ghost orig = self.members@;
        let original_count = self.members.len();
        let mut kept: Vec<MemberInfo> = Vec::new();
        let mut i: usize = 0;
        proof {
            assert(kept@ =~= retained_members(orig.take(0), pv));
        }
        while i < self.members.len()
            invariant
                pv == views_of(patterns@),
                orig == self.members@,
                0 <= i <= orig.len(),
                kept@.len() <= i,
                kept@ == retained_members(orig.take(i as int), pv),
            decreases orig.len() - i,
        {
            proof {
                assert(orig.take(i + 1).drop_last() =~= orig.take(i as int));
                assert(orig.take(i + 1).last() == orig[i as int]);
            }
            let m = &self.members[i];
            if !matches_any_exec(patterns, m.name.as_str()) {
                let copy = MemberInfo {
                    name: m.name.clone(),
                    manifest_path: m.manifest_path.clone(),
                };
                proof {
                    assert(copy == orig[i as int]);
                }
                kept.push(copy);
                proof {
                    assert(kept@ =~= retained_members(orig.take(i + 1), pv));
                }
            } else {
                proof {
                    assert(kept@ =~= retained_members(orig.take(i + 1), pv));
                }
            }
            i += 1;
        }
        proof {
            assert(orig.take(orig.len() as int) =~= orig);
        }
        let kept_count = kept.len();
        self.members = kept;
        original_count - kept_count
    }
}

} // verus!
