//! Version conflict resolution.
//!
//! Given the distinct version strings of one equivalence class and the
//! members that use each of them, a resolution policy either picks a single
//! version string to represent the class or fails with a typed error, which
//! the analysis turns into a reported conflict.

use vstd::prelude::*;
use crate::strutil::views_of;
use crate::version::{
    SemVersion, VersionParts, canon, lenient_parse, lenient_parse_spec, req_accepted,
    req_accepted_check, req_match, req_match_check, version_lt, version_lt_exec,
};
use crate::VersionResolutionStrategy;

verus! {

/// One distinct version string together with the members that declared it.
pub struct VersionMembers {
    pub version: String,
    pub members: Vec<String>,
}

/// Why a resolution policy failed for an equivalence class.
#[derive(Clone, Copy, Debug, PartialEq, Eq, Structural)]
pub enum ResolveError {
    /// The policy refuses every multi-version class (`Skip` or `Fail`).
    PolicyRejection,
    /// A version string could not be interpreted, even leniently.
    ParseFailure,
    /// No version satisfies every member's requirement.
    IncompatibleRequirements,
}

/// The version strings of the entries, in order.
pub open spec fn version_views(specs: Seq<VersionMembers>) -> Seq<Seq<char>> {
    specs.map_values(|vm: VersionMembers| vm.version@)
}

/// The member names of all entries, laid end to end in entry order.
pub open spec fn member_views(specs: Seq<VersionMembers>) -> Seq<Seq<char>>
    decreases specs.len(),
{
    if specs.len() == 0 {
        Seq::empty()
    } else {
        member_views(specs.drop_last()) + views_of(specs.last().members@)
    }
}

/// The versions among `ss` that parse leniently, in order.
pub open spec fn parsed_list(ss: Seq<Seq<char>>) -> Seq<VersionParts>
    decreases ss.len(),
{
    if ss.len() == 0 {
        Seq::empty()
    } else {
        parsed_list(ss.drop_last()) + (match lenient_parse_spec(ss.last()) {
            Some(v) => seq![v],
            None => Seq::empty(),
        })
    }
}

/// The running maximum of a nonempty sequence of versions, later entries
/// winning ties decided by `version_lt`.
pub open spec fn fold_max(s: Seq<VersionParts>) -> VersionParts
    recommends
        s.len() > 0,
    decreases s.len(),
{
    if s.len() <= 1 {
        s[0]
    } else {
        let m = fold_max(s.drop_last());
        if version_lt(m, s.last()) {
            s.last()
        } else {
            m
        }
    }
}

/// The running minimum of a nonempty sequence of versions.
pub open spec fn fold_min(s: Seq<VersionParts>) -> VersionParts
    recommends
        s.len() > 0,
    decreases s.len(),
{
    if s.len() <= 1 {
        s[0]
    } else {
        let m = fold_min(s.drop_last());
        if version_lt(s.last(), m) {
            s.last()
        } else {
            m
        }
    }
}

/// The requirement text that one version string contributes under the
/// `HighestCompatible` policy: the string itself when the requirement
/// grammar accepts it, else a caret requirement on its lenient parse, else
/// nothing.
pub open spec fn req_text_of(s: Seq<char>) -> Option<Seq<char>> {
    if req_accepted(s) {
        Some(s)
    } else if lenient_parse_spec(s) is Some {
        Some(seq!['^'] + canon(lenient_parse_spec(s).unwrap()))
    } else {
        None
    }
}

/// The requirement texts of all version strings, or `None` when some string
/// is neither a requirement nor a lenient version.
pub open spec fn req_texts(ss: Seq<Seq<char>>) -> Option<Seq<Seq<char>>>
    decreases ss.len(),
{
    if ss.len() == 0 {
        Some(Seq::empty())
    } else {
        match (req_texts(ss.drop_last()), req_text_of(ss.last())) {
            (Some(rs), Some(r)) => Some(rs.push(r)),
            _ => None,
        }
    }
}

/// Whether the version written in `vtext` satisfies every requirement.
pub open spec fn all_reqs_match(reqs: Seq<Seq<char>>, vtext: Seq<char>) -> bool {
    forall|i: int| 0 <= i < reqs.len() ==> req_match(#[trigger] reqs[i], vtext) == Some(true)
}

/// Inserts a version into a descending-sorted sequence, after any entries it
/// does not exceed.
pub open spec fn insert_desc(s: Seq<VersionParts>, x: VersionParts) -> Seq<VersionParts>
    decreases s.len(),
{
    if s.len() == 0 {
        seq![x]
    } else if version_lt(s.last(), x) {
        insert_desc(s.drop_last(), x).push(s.last())
    } else {
        s.push(x)
    }
}

/// Insertion sort into descending order.
pub open spec fn sort_desc(s: Seq<VersionParts>) -> Seq<VersionParts>
    decreases s.len(),
{
    if s.len() == 0 {
        Seq::empty()
    } else {
        insert_desc(sort_desc(s.drop_last()), s.last())
    }
}

/// The first version of `sorted` that satisfies every requirement.
pub open spec fn first_match(sorted: Seq<VersionParts>, reqs: Seq<Seq<char>>) -> Option<
    VersionParts,
>
    decreases sorted.len(),
{
    if sorted.len() == 0 {
        None
    } else if all_reqs_match(reqs, canon(sorted[0])) {
        Some(sorted[0])
    } else {
        first_match(sorted.drop_first(), reqs)
    }
}

/// What resolution yields for the given version strings under the given
/// policy: the canonical text of the chosen version, or the typed failure.
pub open spec fn resolve_spec(ss: Seq<Seq<char>>, strategy: VersionResolutionStrategy) -> Result<
    Seq<char>,
    ResolveError,
> {
    match strategy {
        VersionResolutionStrategy::Skip => Err(ResolveError::PolicyRejection),
        VersionResolutionStrategy::Fail => Err(ResolveError::PolicyRejection),
        VersionResolutionStrategy::Highest => if parsed_list(ss).len() == 0 {
            Err(ResolveError::ParseFailure)
        } else {
            Ok(canon(fold_max(parsed_list(ss))))
        },
        VersionResolutionStrategy::Lowest => if parsed_list(ss).len() == 0 {
            Err(ResolveError::ParseFailure)
        } else {
            Ok(canon(fold_min(parsed_list(ss))))
        },
        VersionResolutionStrategy::HighestCompatible => match req_texts(ss) {
            None => Err(ResolveError::ParseFailure),
            Some(reqs) => if parsed_list(ss).len() == 0 {
                Err(ResolveError::ParseFailure)
            } else {
                match first_match(sort_desc(parsed_list(ss)), reqs) {
                    Some(c) => Ok(canon(c)),
                    None => Err(ResolveError::IncompatibleRequirements),
                }
            },
        },
    }
}

/// Parses every version string leniently, keeping those that parse, in
/// order.
fn parse_all(specs: &Vec<VersionMembers>) -> (r: Vec<SemVersion>)
    ensures
        r@.map_values(|v: SemVersion| v.parts()) == parsed_list(version_views(specs@)),
        forall|i: int| 0 <= i < r@.len() ==> (#[trigger] r@[i]).wf(),
{
    let ghost vv = version_views(specs@);
    let mut r: Vec<SemVersion> = Vec::new();
    let mut i: usize = 0;
    proof {
        assert(r@.map_values(|v: SemVersion| v.parts()) =~= parsed_list(vv.take(0)));
    }
    while i < specs.len()
        invariant
            0 <= i <= specs@.len(),
            vv == version_views(specs@),
            vv.len() == specs@.len(),
            r@.map_values(|v: SemVersion| v.parts()) == parsed_list(vv.take(i as int)),
            forall|j: int| 0 <= j < r@.len() ==> (#[trigger] r@[j]).wf(),
        decreases specs@.len() - i,
    {
        proof {
            assert(vv[i as int] == specs@[i as int].version@);
            assert(vv.take(i + 1).drop_last() =~= vv.take(i as int));
            assert(vv.take(i + 1).last() == vv[i as int]);
        }
        let ghost r_old = r@;
        match lenient_parse(specs[i].version.as_str()) {
            Some(v) => {
                r.push(v);
                proof {
                    assert(r@.map_values(|v: SemVersion| v.parts()) =~= parsed_list(
                        vv.take(i + 1),
                    ));
                }
            },
            None => {
                proof {
                    assert(r@.map_values(|v: SemVersion| v.parts()) =~= parsed_list(
                        vv.take(i + 1),
                    ));
                }
            },
        }
        i += 1;
    }
    proof {
        assert(vv.take(specs@.len() as int) =~= vv);
    }
    r
}

/// Collects the members of every entry into one list, in entry order.
fn collect_members(specs: &Vec<VersionMembers>) -> (r: Vec<String>)
    ensures
        views_of(r@) == member_views(specs@),
{
    let mut r: Vec<String> = Vec::new();
    let mut i: usize = 0;
    proof {
        assert(views_of(r@) =~= member_views(specs@.take(0)));
    }
    while i < specs.len()
        invariant
            0 <= i <= specs@.len(),
            views_of(r@) == member_views(specs@.take(i as int)),
        decreases specs@.len() - i,
    {
        let ghost r_mid = r@;
        let mut j: usize = 0;
        while j < specs[i].members.len()
            invariant
                0 <= i < specs@.len(),
                0 <= j <= specs@[i as int].members@.len(),
                views_of(r@) == views_of(r_mid) + views_of(
                    specs@[i as int].members@.take(j as int),
                ),
            decreases specs@[i as int].members@.len() - j,
        {
            r.push(specs[i].members[j].clone());
            proof {
                let mseq = specs@[i as int].members@;
                assert(views_of(mseq.take(j + 1)) =~= views_of(mseq.take(j as int)).push(
                    mseq[j as int]@,
                ));
                assert(views_of(r@) =~= (views_of(r_mid) + views_of(mseq.take(j as int))).push(
                    mseq[j as int]@,
                ));
                assert(views_of(r@) =~= views_of(r_mid) + views_of(mseq.take(j + 1)));
            }
            j += 1;
        }
        proof {
            assert(specs@[i as int].members@.take(specs@[i as int].members@.len() as int)
                =~= specs@[i as int].members@);
            assert(specs@.take(i + 1).drop_last() =~= specs@.take(i as int));
            assert(specs@.take(i + 1).last() == specs@[i as int]);
            assert(views_of(r@) =~= member_views(specs@.take(i + 1)));
        }
        i += 1;
    }
    proof {
        assert(specs@.take(specs@.len() as int) =~= specs@);
    }
    r
}

/// Picks the highest (or lowest) version among those that parse.
fn resolve_by_order(parsed: &Vec<SemVersion>, members: Vec<String>, take_last: bool) -> (r:
    Result<(String, Vec<String>), ResolveError>)
    requires
        forall|i: int| 0 <= i < parsed@.len() ==> (#[trigger] parsed@[i]).wf(),
    ensures
        ({
            let ps = parsed@.map_values(|v: SemVersion| v.parts());
            &&& (r is Err <==> ps.len() == 0)
            &&& (r matches Err(e) ==> e == ResolveError::ParseFailure)
            &&& (r matches Ok(p) ==> p.0@ == canon(
                if take_last {
                    fold_max(ps)
                } else {
                    fold_min(ps)
                },
            ) && p.1 == members)
        }),
{
    let ghost ps = parsed@.map_values(|v: SemVersion| v.parts());
    if parsed.len() == 0 {
        return Err(ResolveError::ParseFailure);
    }
    let mut best: usize = 0;
    let mut i: usize = 1;
    while i < parsed.len()
        invariant
            forall|k: int| 0 <= k < parsed@.len() ==> (#[trigger] parsed@[k]).wf(),
            ps == parsed@.map_values(|v: SemVersion| v.parts()),
            ps.len() == parsed@.len(),
            1 <= i <= parsed@.len(),
            0 <= best < i,
            ps[best as int] == if take_last {
                fold_max(ps.take(i as int))
            } else {
                fold_min(ps.take(i as int))
            },
        decreases parsed@.len() - i,
    {
        proof {
            assert(ps.take(i + 1).drop_last() =~= ps.take(i as int));
            assert(ps.take(i + 1).last() == ps[i as int]);
            assert(ps.take(i + 1).len() == i + 1);
        }
        if take_last {
            if version_lt_exec(&parsed[best], &parsed[i]) {
                best = i;
            }
        } else {
            if version_lt_exec(&parsed[i], &parsed[best]) {
                best = i;
            }
        }
        i += 1;
    }
    proof {
        assert(ps.take(parsed@.len() as int) =~= ps);
    }
    Ok((parsed[best].text.clone(), members))
}

/// Picks the highest version among those that parse.
fn resolve_highest(version_map: &Vec<VersionMembers>, members: Vec<String>) -> (r: Result<
    (String, Vec<String>),
    ResolveError,
>)
    ensures
        ({
            let ps = parsed_list(version_views(version_map@));
            &&& (r is Err <==> ps.len() == 0)
            &&& (r matches Err(e) ==> e == ResolveError::ParseFailure)
            &&& (r matches Ok(p) ==> p.0@ == canon(fold_max(ps)) && p.1 == members)
        }),
{
    let parsed = parse_all(version_map);
    resolve_by_order(&parsed, members, true)
}

/// Picks the lowest version among those that parse.
fn resolve_lowest(version_map: &Vec<VersionMembers>, members: Vec<String>) -> (r: Result<
    (String, Vec<String>),
    ResolveError,
>)
    ensures
        ({
            let ps = parsed_list(version_views(version_map@));
            &&& (r is Err <==> ps.len() == 0)
            &&& (r matches Err(e) ==> e == ResolveError::ParseFailure)
            &&& (r matches Ok(p) ==> p.0@ == canon(fold_min(ps)) && p.1 == members)
        }),
{
    let parsed = parse_all(version_map);
    resolve_by_order(&parsed, members, false)
}

/// Picks the highest version that satisfies every member's requirement.
fn resolve_highest_compatible(specs: &Vec<VersionMembers>, members: Vec<String>) -> (r: Result<
    (String, Vec<String>),
    ResolveError,
>)
    ensures
        ({
            let out = resolve_spec(
                version_views(specs@),
                VersionResolutionStrategy::HighestCompatible,
            );
            &&& (r is Ok <==> out is Ok)
            &&& (r matches Ok(p) ==> p.0@ == out->Ok_0 && p.1 == members)
            &&& (r matches Err(e) ==> out == Err::<Seq<char>, ResolveError>(e))
        }),
{
    let ghost vv = version_views(specs@);
    // Build the requirement texts, one per version string.
    let mut reqs: Vec<String> = Vec::new();
    let mut i: usize = 0;
    proof {
        assert(req_texts(vv.take(0)) =~= Some(Seq::<Seq<char>>::empty()));
        assert(views_of(reqs@) =~= Seq::<Seq<char>>::empty());
    }
    while i < specs.len()
        invariant
            0 <= i <= specs@.len(),
            vv == version_views(specs@),
            vv.len() == specs@.len(),
            req_texts(vv.take(i as int)) == Some(views_of(reqs@)),
        decreases specs@.len() - i,
    {
        proof {
            assert(vv[i as int] == specs@[i as int].version@);
            assert(vv.take(i + 1).drop_last() =~= vv.take(i as int));
            assert(vv.take(i + 1).last() == vv[i as int]);
        }
        let ghost old_views = views_of(reqs@);
        let vstr = &specs[i].version;
        if req_accepted_check(vstr.as_str()) {
            reqs.push(vstr.clone());
            proof {
                assert(req_text_of(vv[i as int]) == Some(vstr@));
                assert(views_of(reqs@) =~= old_views.push(vstr@));
                assert(req_texts(vv.take(i + 1)) == Some(views_of(reqs@)));
            }
        } else {
            match lenient_parse(vstr.as_str()) {
                Some(v) => {
                    let mut caret = String::new();
                    caret.append("^");
                    caret.append(v.text.as_str());
                    proof {
                        reveal_strlit("^");
                        assert("^"@ =~= seq!['^']);
                        assert(caret@ =~= seq!['^'] + canon(v.parts()));
                        assert(req_text_of(vv[i as int]) == Some(caret@));
                    }
                    reqs.push(caret);
                    proof {
                        assert(views_of(reqs@) =~= old_views.push(seq!['^'] + canon(v.parts())));
                        assert(req_texts(vv.take(i + 1)) == Some(views_of(reqs@)));
                    }
                },
                None => {
                    proof {
                        assert(req_text_of(vv[i as int]) is None);
                        assert(req_texts(vv.take(i + 1)) is None);
                        lemma_req_texts_none_extends(vv, i + 1);
                    }
                    return Err(ResolveError::ParseFailure);
                },
            }
        }
        i += 1;
    }
    proof {
        assert(vv.take(vv.len() as int) =~= vv);
    }
    // Gather the candidates: every version string that parses leniently.
    let candidates = parse_all(specs);
    let ghost ps = parsed_list(vv);
    if candidates.len() == 0 {
        return Err(ResolveError::ParseFailure);
    }
    // Sort the candidates into descending order.
    let mut sorted: Vec<SemVersion> = Vec::new();
    let mut i2: usize = 0;
    while i2 < candidates.len()
        invariant
            0 <= i2 <= candidates@.len(),
            candidates@.map_values(|v: SemVersion| v.parts()) == ps,
            forall|k: int| 0 <= k < candidates@.len() ==> (#[trigger] candidates@[k]).wf(),
            forall|k: int| 0 <= k < sorted@.len() ==> (#[trigger] sorted@[k]).wf(),
            sorted@.map_values(|v: SemVersion| v.parts()) == sort_desc(ps.take(i2 as int)),
        decreases candidates@.len() - i2,
    {
        proof {
            assert(ps.take(i2 + 1).drop_last() =~= ps.take(i2 as int));
            assert(ps.take(i2 + 1).last() == ps[i2 as int]);
            assert(ps[i2 as int] == candidates@[i2 as int].parts());
        }
        let x = clone_sem_version(&candidates[i2]);
        let mut j: usize = sorted.len();
        while j > 0 && version_lt_exec(&sorted[j - 1], &x)
            invariant
                forall|k: int| 0 <= k < sorted@.len() ==> (#[trigger] sorted@[k]).wf(),
                x.wf(),
                0 <= j <= sorted@.len(),
                forall|k: int|
                    j <= k < sorted@.len() ==> version_lt(
                        (#[trigger] sorted@[k]).parts(),
                        x.parts(),
                    ),
            decreases j,
        {
            j -= 1;
        }
        proof {
            let sv = sorted@.map_values(|v: SemVersion| v.parts());
            lemma_insert_desc_at(sv, x.parts(), j as int);
        }
        sorted.insert(j, x);
        proof {
            assert(sorted@.map_values(|v: SemVersion| v.parts()) =~= insert_desc(
                sort_desc(ps.take(i2 as int)),
                ps[i2 as int],
            ));
        }
        i2 += 1;
    }
    proof {
        assert(ps.take(ps.len() as int) =~= ps);
    }
    // Scan from the highest candidate down for one that satisfies every
    // requirement.
    let ghost rv = views_of(reqs@);
    let ghost sv = sort_desc(ps);
    proof {
        assert(req_texts(vv) == Some(rv));
        assert(sv.skip(0) =~= sv);
    }
    let mut c: usize = 0;
    while c < sorted.len()
        invariant
            vv == version_views(specs@),
            ps == parsed_list(vv),
            ps.len() > 0,
            sv == sort_desc(ps),
            req_texts(vv) == Some(rv),
            sorted@.map_values(|v: SemVersion| v.parts()) == sv,
            forall|k: int| 0 <= k < sorted@.len() ==> (#[trigger] sorted@[k]).wf(),
            rv == views_of(reqs@),
            reqs@.len() == rv.len(),
            0 <= c <= sorted@.len(),
            first_match(sv, rv) == first_match(sv.skip(c as int), rv),
        decreases sorted@.len() - c,
    {
        proof {
            assert(sv.skip(c as int)[0] == sv[c as int]);
            assert(sv[c as int] == sorted@[c as int].parts());
        }
        let cand = &sorted[c];
        let mut all_ok = true;
        let mut q: usize = 0;
        while q < reqs.len()
            invariant
                rv == views_of(reqs@),
                reqs@.len() == rv.len(),
                0 <= q <= reqs@.len(),
                0 <= c < sorted@.len(),
                cand == sorted@[c as int],
                all_ok <==> forall|k: int|
                    0 <= k < q ==> req_match(#[trigger] rv[k], cand.text@) == Some(true),
            decreases reqs@.len() - q,
        {
            proof {
                assert(rv[q as int] == reqs@[q as int]@);
            }
            match req_match_check(reqs[q].as_str(), cand.text.as_str()) {
                Some(true) => {},
                _ => {
                    all_ok = false;
                },
            }
            q += 1;
        }
        proof {
            assert(cand.text@ == canon(sorted@[c as int].parts()));
        }
        if all_ok {
            proof {
                assert(all_reqs_match(rv, canon(sv.skip(c as int)[0])));
                assert(first_match(sv.skip(c as int), rv) == Some(sv[c as int]));
                assert(first_match(sv, rv) == Some(sv[c as int]));
                assert(req_texts(vv) == Some(rv));
                assert(ps.len() > 0);
                assert(resolve_spec(vv, VersionResolutionStrategy::HighestCompatible) == Ok::<
                    Seq<char>,
                    ResolveError,
                >(canon(sv[c as int])));
                assert(cand.text@ == canon(sv[c as int]));
            }
            return Ok((cand.text.clone(), members));
        }
        proof {
            assert(!all_reqs_match(rv, canon(sv.skip(c as int)[0])));
            assert(sv.skip(c as int).drop_first() =~= sv.skip(c + 1));
            assert(first_match(sv.skip(c as int), rv) == first_match(sv.skip(c + 1), rv));
        }
        c += 1;
    }
    proof {
        assert(sv.skip(sorted@.len() as int) =~= Seq::<VersionParts>::empty());
    }
    Err(ResolveError::IncompatibleRequirements)
}

/// Clones a parsed version.
fn clone_sem_version(v: &SemVersion) -> (r: SemVersion)
    ensures
        r == *v,
{
    SemVersion {
        major: v.major,
        minor: v.minor,
        patch: v.patch,
        pre: v.pre.clone(),
        build: v.build.clone(),
        text: v.text.clone(),
    }
}

/// Once some prefix of the version strings yields no requirement text, the
/// whole sequence yields none.
proof fn lemma_req_texts_none_extends(ss: Seq<Seq<char>>, i: int)
    requires
        0 <= i <= ss.len(),
        req_texts(ss.take(i)) is None,
    ensures
        req_texts(ss) is None,
    decreases ss.len() - i,
{
    if i < ss.len() {
        assert(ss.take(i + 1).drop_last() =~= ss.take(i));
        lemma_req_texts_none_extends(ss, i + 1);
    } else {
        assert(ss.take(i) =~= ss);
    }
}

/// Where the scan of an insertion lands, the inserted element splits the
/// sequence there.
proof fn lemma_insert_desc_at(s: Seq<VersionParts>, x: VersionParts, j: int)
    requires
        0 <= j <= s.len(),
        forall|k: int| j <= k < s.len() ==> version_lt(#[trigger] s[k], x),
        j > 0 ==> !version_lt(s[j - 1], x),
    ensures
        insert_desc(s, x) == s.take(j) + seq![x] + s.skip(j),
    decreases s.len(),
{
    if s.len() == 0 {
        assert(insert_desc(s, x) =~= s.take(0) + seq![x] + s.skip(0));
    } else if j == s.len() {
        assert(!version_lt(s.last(), x));
        assert(insert_desc(s, x) == s.push(x));
        assert(s.push(x) =~= s.take(j) + seq![x] + s.skip(j));
    } else {
        assert(version_lt(s.last(), x));
        let d = s.drop_last();
        assert(forall|k: int| j <= k < d.len() ==> version_lt(#[trigger] d[k], x)) by {
            assert(forall|k: int| 0 <= k < d.len() ==> d[k] == s[k]);
        }
        assert(j > 0 ==> !version_lt(d[j - 1], x)) by {
            if j > 0 {
                assert(d[j - 1] == s[j - 1]);
            }
        }
        lemma_insert_desc_at(d, x, j);
        assert(insert_desc(s, x) == insert_desc(d, x).push(s.last()));
        assert(insert_desc(d, x).push(s.last()) =~= s.take(j) + seq![x] + s.skip(j)) by {
            assert(insert_desc(d, x) == d.take(j) + seq![x] + d.skip(j));
            assert(d.take(j) =~= s.take(j));
        }
    }
}

/// Two versions whose order the openly stated rules decide on their own:
/// equal versions, versions with distinct numeric components, or a
/// pre-release against a release of the same numeric components. What is
/// left out is a tie decided by `pre_build_before`.
pub open spec fn plainly_ordered(a: VersionParts, b: VersionParts) -> bool {
    a == b || a.major != b.major || a.minor != b.minor || a.patch != b.patch || ((a.pre.len()
        == 0) != (b.pre.len() == 0))
}

/// Every pair of the sequence is plainly ordered.
pub open spec fn all_plainly_ordered(s: Seq<VersionParts>) -> bool {
    forall|i: int, j: int|
        0 <= i < s.len() && 0 <= j < s.len() ==> plainly_ordered(#[trigger] s[i], #[trigger] s[j])
}

/// The rank a release sorts above a pre-release by.
pub open spec fn rank_pre(p: Seq<char>) -> int {
    if p.len() == 0 {
        1
    } else {
        0
    }
}

/// The plainly decided part of the order, as plain arithmetic.
pub open spec fn rank_lt(a: VersionParts, b: VersionParts) -> bool {
    a.major < b.major || (a.major == b.major && (a.minor < b.minor || (a.minor == b.minor && (
    a.patch < b.patch || (a.patch == b.patch && rank_pre(a.pre) < rank_pre(b.pre))))))
}

/// On plainly ordered pairs, the version order is the arithmetic order of
/// the ranks.
proof fn lemma_lt_is_rank_lt(a: VersionParts, b: VersionParts)
    requires
        plainly_ordered(a, b),
    ensures
        version_lt(a, b) == rank_lt(a, b),
{
}

/// The maximum a fold finds is a member of the sequence and an upper bound
/// of it.
proof fn lemma_fold_max_props(s: Seq<VersionParts>)
    requires
        s.len() > 0,
        all_plainly_ordered(s),
    ensures
        s.contains(fold_max(s)),
        forall|i: int| 0 <= i < s.len() ==> !version_lt(fold_max(s), #[trigger] s[i]),
    decreases s.len(),
{
    if s.len() == 1 {
        assert(s[0] == fold_max(s));
        lemma_lt_is_rank_lt(s[0], s[0]);
    } else {
        let d = s.drop_last();
        assert(all_plainly_ordered(d)) by {
            assert(forall|i: int| 0 <= i < d.len() ==> d[i] == s[i]);
        }
        lemma_fold_max_props(d);
        let m = fold_max(d);
        let x = s.last();
        let idx = choose|idx: int| 0 <= idx < d.len() && d[idx] == m;
        assert(s[idx] == m);
        assert(s.contains(fold_max(s))) by {
            if version_lt(m, x) {
                assert(s[s.len() - 1] == x);
            }
        }
        assert(forall|i: int| 0 <= i < s.len() ==> !version_lt(fold_max(s), #[trigger] s[i])) by {
            assert forall|i: int| 0 <= i < s.len() implies !version_lt(
                fold_max(s),
                #[trigger] s[i],
            ) by {
                if version_lt(m, x) {
                    lemma_lt_is_rank_lt(m, x);
                    if i < s.len() - 1 {
                        assert(!version_lt(m, d[i]));
                        lemma_lt_is_rank_lt(m, d[i]);
                        lemma_lt_is_rank_lt(x, s[i]);
                    } else {
                        lemma_lt_is_rank_lt(x, x);
                    }
                } else {
                    if i < s.len() - 1 {
                        assert(!version_lt(m, d[i]));
                    } else {
                        assert(!version_lt(m, x));
                    }
                }
            }
        }
    }
}

/// The minimum a fold finds is a member of the sequence and a lower bound
/// of it.
proof fn lemma_fold_min_props(s: Seq<VersionParts>)
    requires
        s.len() > 0,
        all_plainly_ordered(s),
    ensures
        s.contains(fold_min(s)),
        forall|i: int| 0 <= i < s.len() ==> !version_lt(#[trigger] s[i], fold_min(s)),
    decreases s.len(),
{
    if s.len() == 1 {
        assert(s[0] == fold_min(s));
        lemma_lt_is_rank_lt(s[0], s[0]);
    } else {
        let d = s.drop_last();
        assert(all_plainly_ordered(d)) by {
            assert(forall|i: int| 0 <= i < d.len() ==> d[i] == s[i]);
        }
        lemma_fold_min_props(d);
        let m = fold_min(d);
        let x = s.last();
        let idx = choose|idx: int| 0 <= idx < d.len() && d[idx] == m;
        assert(s[idx] == m);
        assert(s.contains(fold_min(s))) by {
            if version_lt(x, m) {
                assert(s[s.len() - 1] == x);
            }
        }
        assert(forall|i: int| 0 <= i < s.len() ==> !version_lt(#[trigger] s[i], fold_min(s))) by {
            assert forall|i: int| 0 <= i < s.len() implies !version_lt(
                #[trigger] s[i],
                fold_min(s),
            ) by {
                if version_lt(x, m) {
                    lemma_lt_is_rank_lt(x, m);
                    if i < s.len() - 1 {
                        assert(!version_lt(d[i], m));
                        lemma_lt_is_rank_lt(d[i], m);
                        lemma_lt_is_rank_lt(s[i], x);
                    } else {
                        lemma_lt_is_rank_lt(x, x);
                    }
                } else {
                    if i < s.len() - 1 {
                        assert(!version_lt(d[i], m));
                    } else {
                        assert(!version_lt(x, m));
                    }
                }
            }
        }
    }
}

/// The Highest and Lowest policies are idempotent under input-order
/// permutation: two version sequences holding the same versions, in any
/// order, fold to the same maximum and the same minimum, whenever every
/// pair of them is plainly ordered (ties between two pre-releases of one
/// numeric version, or between builds of one version, are decided by the
/// outside ordering and are left out here).
pub proof fn lemma_extreme_choice_order_independent(s1: Seq<VersionParts>, s2: Seq<VersionParts>)
    requires
        s1.to_multiset() == s2.to_multiset(),
        s1.len() > 0,
        all_plainly_ordered(s1),
    ensures
        fold_max(s1) == fold_max(s2),
        fold_min(s1) == fold_min(s2),
{
    broadcast use vstd::seq_lib::group_to_multiset_ensures;

    s1.to_multiset_ensures();
    s2.to_multiset_ensures();
    assert(s1.len() == s1.to_multiset().len());
    assert(s2.len() == s2.to_multiset().len());
    assert(s1.len() == s2.len());
    assert forall|x: VersionParts| s1.contains(x) implies s2.contains(x) by {
        assert(s1.to_multiset().count(x) > 0);
        assert(s2.to_multiset().count(x) > 0);
    }
    assert forall|x: VersionParts| s2.contains(x) implies s1.contains(x) by {
        assert(s2.to_multiset().count(x) > 0);
        assert(s1.to_multiset().count(x) > 0);
    }
    assert(all_plainly_ordered(s2)) by {
        assert forall|i: int, j: int|
            0 <= i < s2.len() && 0 <= j < s2.len() implies plainly_ordered(
            #[trigger] s2[i],
            #[trigger] s2[j],
        ) by {
            assert(s2.contains(s2[i]) && s2.contains(s2[j]));
            let a = choose|a: int| 0 <= a < s1.len() && s1[a] == s2[i];
            let b = choose|b: int| 0 <= b < s1.len() && s1[b] == s2[j];
            assert(plainly_ordered(s1[a], s1[b]));
        }
    }
    lemma_fold_max_props(s1);
    lemma_fold_max_props(s2);
    lemma_fold_min_props(s1);
    lemma_fold_min_props(s2);
    let m1 = fold_max(s1);
    let m2 = fold_max(s2);
    assert(s1.contains(m2) && s2.contains(m1));
    assert(m1 == m2) by {
        let a = choose|a: int| 0 <= a < s1.len() && s1[a] == m2;
        assert(!version_lt(m1, m2));
        let b = choose|b: int| 0 <= b < s2.len() && s2[b] == m1;
        assert(!version_lt(m2, m1));
        assert(plainly_ordered(m1, m2)) by {
            let c = choose|c: int| 0 <= c < s1.len() && s1[c] == m1;
            assert(plainly_ordered(s1[c], s1[a]));
        }
        lemma_lt_is_rank_lt(m1, m2);
        lemma_lt_is_rank_lt(m2, m1);
    }
    let n1 = fold_min(s1);
    let n2 = fold_min(s2);
    assert(s1.contains(n2) && s2.contains(n1));
    assert(n1 == n2) by {
        let a = choose|a: int| 0 <= a < s1.len() && s1[a] == n2;
        assert(!version_lt(n2, n1));
        let b = choose|b: int| 0 <= b < s2.len() && s2[b] == n1;
        assert(!version_lt(n1, n2));
        assert(plainly_ordered(n1, n2)) by {
            let c = choose|c: int| 0 <= c < s1.len() && s1[c] == n1;
            assert(plainly_ordered(s1[c], s1[a]));
        }
        lemma_lt_is_rank_lt(n1, n2);
        lemma_lt_is_rank_lt(n2, n1);
    }
}

/// Removing one version string removes exactly its parse from the parsed
/// versions.
proof fn lemma_parsed_list_remove(s: Seq<Seq<char>>, k: int)
    requires
        0 <= k < s.len(),
    ensures
        parsed_list(s).to_multiset() == (match lenient_parse_spec(s[k]) {
            Some(v) => parsed_list(s.remove(k)).to_multiset().insert(v),
            None => parsed_list(s.remove(k)).to_multiset(),
        }),
    decreases s.len(),
{
    broadcast use vstd::seq_lib::group_to_multiset_ensures;

    if k == s.len() - 1 {
        assert(s.remove(k) =~= s.drop_last());
        match lenient_parse_spec(s[k]) {
            Some(v) => {
                assert(parsed_list(s) =~= parsed_list(s.drop_last()).push(v));
            },
            None => {
                assert(parsed_list(s) =~= parsed_list(s.drop_last()));
            },
        }
    } else {
        let d = s.drop_last();
        lemma_parsed_list_remove(d, k);
        assert(s.remove(k).drop_last() =~= d.remove(k));
        assert(s.remove(k).last() == s.last());
        assert(d[k] == s[k]);
        let tail = (match lenient_parse_spec(s.last()) {
            Some(v) => seq![v],
            None => Seq::<VersionParts>::empty(),
        });
        assert(parsed_list(s) == parsed_list(d) + tail);
        assert(parsed_list(s.remove(k)) == parsed_list(d.remove(k)) + tail);
        vstd::seq_lib::lemma_multiset_commutative(parsed_list(d), tail);
        vstd::seq_lib::lemma_multiset_commutative(parsed_list(d.remove(k)), tail);
        match lenient_parse_spec(s[k]) {
            Some(v) => {
                assert(parsed_list(s).to_multiset() =~= parsed_list(
                    s.remove(k),
                ).to_multiset().insert(v));
            },
            None => {
                assert(parsed_list(s).to_multiset() =~= parsed_list(s.remove(k)).to_multiset());
            },
        }
    }
}

/// Version strings holding the same entries, in any order, parse to the
/// same versions.
pub proof fn lemma_parsed_list_permutation(ss1: Seq<Seq<char>>, ss2: Seq<Seq<char>>)
    requires
        ss1.to_multiset() == ss2.to_multiset(),
    ensures
        parsed_list(ss1).to_multiset() == parsed_list(ss2).to_multiset(),
    decreases ss1.len(),
{
    broadcast use vstd::seq_lib::group_to_multiset_ensures;

    ss1.to_multiset_ensures();
    ss2.to_multiset_ensures();
    assert(ss1.len() == ss1.to_multiset().len());
    assert(ss2.len() == ss2.to_multiset().len());
    assert(ss1.len() == ss2.len());
    if ss1.len() > 0 {
        let x = ss1.last();
        assert(ss1.contains(x)) by {
            assert(ss1[ss1.len() - 1] == x);
        }
        assert(ss2.contains(x)) by {
            assert(ss1.to_multiset().count(x) > 0);
            assert(ss2.to_multiset().count(x) > 0);
        }
        let k = choose|k: int| 0 <= k < ss2.len() && ss2[k] == x;
        assert(ss1[ss1.len() - 1] == x);
        assert(ss1.remove(ss1.len() - 1) =~= ss1.drop_last());
        assert(ss1.drop_last().to_multiset() == ss2.remove(k).to_multiset()) by {
            assert(ss1.remove(ss1.len() - 1).to_multiset() =~= ss1.to_multiset().remove(x));
            assert(ss2.remove(k).to_multiset() =~= ss2.to_multiset().remove(x));
        }
        lemma_parsed_list_permutation(ss1.drop_last(), ss2.remove(k));
        lemma_parsed_list_remove(ss1, ss1.len() - 1);
        lemma_parsed_list_remove(ss2, k);
        assert(ss1[ss1.len() - 1] == ss2[k]);
        match lenient_parse_spec(x) {
            Some(v) => {
                assert(parsed_list(ss1).to_multiset() =~= parsed_list(ss2).to_multiset());
            },
            None => {
                assert(parsed_list(ss1).to_multiset() =~= parsed_list(ss2).to_multiset());
            },
        }
    } else {
        assert(ss2.len() == 0);
        assert(parsed_list(ss1) =~= parsed_list(ss2));
    }
}

/// The Highest and Lowest policies resolve a class to the same version
/// whatever order its version strings are tracked in, whenever the versions
/// that parse are pairwise plainly ordered.
pub proof fn lemma_resolution_order_independent(
    ss1: Seq<Seq<char>>,
    ss2: Seq<Seq<char>>,
    strategy: VersionResolutionStrategy,
)
    requires
        ss1.to_multiset() == ss2.to_multiset(),
        all_plainly_ordered(parsed_list(ss1)),
        strategy == VersionResolutionStrategy::Highest || strategy
            == VersionResolutionStrategy::Lowest,
    ensures
        resolve_spec(ss1, strategy) == resolve_spec(ss2, strategy),
{
    broadcast use vstd::seq_lib::group_to_multiset_ensures;

    lemma_parsed_list_permutation(ss1, ss2);
    let p1 = parsed_list(ss1);
    let p2 = parsed_list(ss2);
    p1.to_multiset_ensures();
    p2.to_multiset_ensures();
    assert(p1.len() == p1.to_multiset().len());
    assert(p2.len() == p2.to_multiset().len());
    assert(p1.len() == p2.len());
    if p1.len() > 0 {
        lemma_extreme_choice_order_independent(p1, p2);
    }
}

/// Resolves an equivalence class's version disagreement under the given
/// policy.
///
/// Succeeds exactly when the policy succeeds on the entries' version
/// strings; on success the chosen version's canonical text is returned
/// together with every member of every entry, in entry order.
pub fn resolve_version_conflict(version_map: &Vec<VersionMembers>, strategy:
    &VersionResolutionStrategy) -> (r: Result<(String, Vec<String>), ResolveError>)
    ensures
        r is Ok <==> resolve_spec(version_views(version_map@), *strategy) is Ok,
        r matches Ok(p) ==> p.0@ == resolve_spec(version_views(version_map@), *strategy)->Ok_0
            && views_of(p.1@) == member_views(version_map@),
        r matches Err(e) ==> Err::<Seq<char>, ResolveError>(e) == resolve_spec(
            version_views(version_map@),
            *strategy,
        ),
{
    let all_members = collect_members(version_map);
    match strategy {
        VersionResolutionStrategy::Skip => Err(ResolveError::PolicyRejection),
        VersionResolutionStrategy::Fail => Err(ResolveError::PolicyRejection),
        VersionResolutionStrategy::Highest => resolve_highest(version_map, all_members),
        VersionResolutionStrategy::Lowest => resolve_lowest(version_map, all_members),
        VersionResolutionStrategy::HighestCompatible => {
            resolve_highest_compatible(version_map, all_members)
        },
    }
}

} // verus!
