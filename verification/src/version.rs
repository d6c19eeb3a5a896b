//! The engine's model of semantic versions.
//!
//! A version string coming out of a manifest is often abbreviated ("1.0",
//! "2"); such a string is zero-padded to three numeric components and then
//! handed to the `semver` crate's strict parser. The parsed components are
//! kept as plain values so that the resolution logic can be verified; the
//! `semver` crate itself is reached only through the trusted items below.

use vstd::prelude::*;
use crate::strutil::dec_str;

verus! {

/// The components of a parsed semantic version.
pub ghost struct VersionParts {
    pub major: u64,
    pub minor: u64,
    pub patch: u64,
    pub pre: Seq<char>,
    pub build: Seq<char>,
}

/// What `semver::Version::parse` accepts and yields for a given string:
/// `None` when the string is not a valid three-component semantic version,
/// otherwise its components.
pub uninterp spec fn strict_parse(s: Seq<char>) -> Option<VersionParts>;

/// How `semver::Version`'s ordering decides between two versions whose
/// numeric components agree and whose pre-release and build parts do not
/// decide the order by the plainly documented rules alone.
pub uninterp spec fn pre_build_before(
    a_pre: Seq<char>,
    a_build: Seq<char>,
    b_pre: Seq<char>,
    b_build: Seq<char>,
) -> bool;

/// Whether `semver::VersionReq::parse` accepts the string as a version
/// requirement.
pub uninterp spec fn req_accepted(s: Seq<char>) -> bool;

/// Whether the requirement written in `req` admits the version written in
/// `v`: `None` when either text fails its parse, otherwise the verdict of
/// `semver::VersionReq::matches`.
pub uninterp spec fn req_match(req: Seq<char>, v: Seq<char>) -> Option<bool>;

/// The canonical rendering of version components: "major.minor.patch",
/// then "-pre" when the pre-release part is nonempty, then "+build" when the
/// build part is nonempty.
pub open spec fn canon(v: VersionParts) -> Seq<char> {
    dec_str(v.major as nat) + seq!['.'] + dec_str(v.minor as nat) + seq!['.'] + dec_str(
        v.patch as nat,
    ) + (if v.pre.len() > 0 {
        seq!['-'] + v.pre
    } else {
        Seq::empty()
    }) + (if v.build.len() > 0 {
        seq!['+'] + v.build
    } else {
        Seq::empty()
    })
}

/// Strict order on version components, as `semver::Version`'s `Ord` decides
/// it: numeric comparison of major, minor and patch; a pre-release sorts
/// below the same release; the remaining cases (two distinct nonempty
/// pre-release parts, or equal pre-release parts with distinct build parts)
/// are named by `pre_build_before`.
pub open spec fn version_lt(a: VersionParts, b: VersionParts) -> bool {
    if a.major != b.major {
        a.major < b.major
    } else if a.minor != b.minor {
        a.minor < b.minor
    } else if a.patch != b.patch {
        a.patch < b.patch
    } else if a.pre.len() == 0 && b.pre.len() > 0 {
        false
    } else if a.pre.len() > 0 && b.pre.len() == 0 {
        true
    } else if a.pre == b.pre && a.build == b.build {
        false
    } else {
        pre_build_before(a.pre, a.build, b.pre, b.build)
    }
}

/// A parsed version: its components as plain values, and its canonical text,
/// which is what resolution reports.
pub struct SemVersion {
    pub major: u64,
    pub minor: u64,
    pub patch: u64,
    pub pre: String,
    pub build: String,
    pub text: String,
}

impl SemVersion {
    /// The components of this version.
    pub open spec fn parts(self) -> VersionParts {
        VersionParts {
            major: self.major,
            minor: self.minor,
            patch: self.patch,
            pre: self.pre@,
            build: self.build@,
        }
    }

    /// A well-formed version's text is the canonical rendering of its
    /// components, and parsing that text yields the components back.
    pub open spec fn wf(self) -> bool {
        strict_parse(self.text@) == Some(self.parts()) && self.text@ == canon(self.parts())
    }
}

/// Relies on `semver::Version::parse` for acceptance and for the components,
/// and on `semver::Version`'s `Display` for the text: `Display` writes
/// "major.minor.patch" followed by "-pre" and "+build" when those parts are
/// nonempty, and parsing the rendered text yields the same components back.
#[verifier::external_body]
fn parse_version(s: &str) -> (r: Option<SemVersion>)
    ensures
        r is Some <==> strict_parse(s@) is Some,
        r matches Some(v) ==> Some(v.parts()) == strict_parse(s@) && v.text@ == canon(v.parts())
            && strict_parse(v.text@) == Some(v.parts()),
{
    match semver::Version::parse(s) {
        Ok(v) => {
            let text = v.to_string();
            Some(SemVersion {
                major: v.major,
                minor: v.minor,
                patch: v.patch,
                pre: v.pre.as_str().to_string(),
                build: v.build.as_str().to_string(),
                text,
            })
        },
        Err(_) => None,
    }
}

/// Relies on `semver::Version`'s `Ord`, which orders by major, minor and
/// patch numerically, then by pre-release (a pre-release sorts below the
/// same release), then by build metadata; the cases the documentation does
/// not pin down in a few lines are named by `pre_build_before`.
#[verifier::external_body]
fn version_text_lt(a: &str, b: &str) -> (r: bool)
    requires
        strict_parse(a@) is Some,
        strict_parse(b@) is Some,
    ensures
        r == version_lt(strict_parse(a@).unwrap(), strict_parse(b@).unwrap()),
        ({
            let av = strict_parse(a@).unwrap();
            let bv = strict_parse(b@).unwrap();
            av.major == bv.major && av.minor == bv.minor && av.patch == bv.patch && av.pre.len()
                > 0 && bv.pre.len() > 0 && av.pre != bv.pre
        }) ==> r == pre_build_before(
            strict_parse(a@).unwrap().pre,
            strict_parse(a@).unwrap().build,
            strict_parse(b@).unwrap().pre,
            strict_parse(b@).unwrap().build,
        ),
{
    match (semver::Version::parse(a), semver::Version::parse(b)) {
        (Ok(x), Ok(y)) => x < y,
        _ => false,
    }
}

/// Relies on `semver::VersionReq::parse`: acceptance of the requirement
/// grammar depends on the text alone.
#[verifier::external_body]
fn req_accepted_exec(s: &str) -> (r: bool)
    ensures
        r == req_accepted(s@),
{
    semver::VersionReq::parse(s).is_ok()
}

/// Relies on `semver::VersionReq::parse` and `semver::VersionReq::matches`:
/// the verdict depends on the requirement text and the version text alone,
/// and is present whenever both texts parse.
#[verifier::external_body]
fn req_match_exec(req: &str, v: &str) -> (r: Option<bool>)
    ensures
        r == req_match(req@, v@),
        req_accepted(req@) && strict_parse(v@) is Some ==> r is Some,
{
    match (semver::VersionReq::parse(req), semver::Version::parse(v)) {
        (Ok(rq), Ok(ver)) => Some(rq.matches(&ver)),
        _ => None,
    }
}

/// Whether the character is a decimal digit.
pub open spec fn is_digit(c: char) -> bool {
    ('0' as int) <= (c as int) && (c as int) <= ('9' as int)
}

/// Whether every character of the sequence is a decimal digit.
pub open spec fn all_digits(s: Seq<char>) -> bool {
    forall|i: int| 0 <= i < s.len() ==> is_digit(s[i])
}

/// Whether the string has the shape "digits.digits" with both parts
/// nonempty.
pub open spec fn two_part_form(s: Seq<char>) -> bool {
    exists|i: int|
        1 <= i < s.len() - 1 && s[i] == '.' && all_digits(#[trigger] s.take(i)) && all_digits(
            s.skip(i + 1),
        )
}

/// The zero-padding step of lenient parsing: a version string of one or two
/// purely numeric components gains ".0" components until it has three;
/// anything else is left for the strict parser to accept or reject as it
/// stands.
pub open spec fn pad_spec(s: Seq<char>) -> Seq<char> {
    if s.len() > 0 && all_digits(s) {
        s + seq!['.', '0', '.', '0']
    } else if two_part_form(s) {
        s + seq!['.', '0']
    } else {
        s
    }
}

/// The result of lenient parsing: zero-pad, then parse strictly.
pub open spec fn lenient_parse_spec(s: Seq<char>) -> Option<VersionParts> {
    strict_parse(pad_spec(s))
}

/// Decides whether every character of `s` in `[from, to)` is a digit.
fn digits_in_range(s: &str, from: usize, to: usize) -> (r: bool)
    requires
        from <= to <= s@.len(),
    ensures
        r == all_digits(s@.subrange(from as int, to as int)),
{
    let ghost seg = s@.subrange(from as int, to as int);
    let mut i: usize = from;
    while i < to
        invariant
            from <= i <= to <= s@.len(),
            seg == s@.subrange(from as int, to as int),
            forall|j: int| 0 <= j < i - from ==> is_digit(#[trigger] seg[j]),
        decreases to - i,
    {
        let c = s.get_char(i);
        let dig = ('0' as u32) <= (c as u32) && (c as u32) <= ('9' as u32);
        proof {
            assert(seg[i - from] == s@[i as int]);
            assert(dig == is_digit(c));
        }
        if !dig {
            proof {
                assert(!all_digits(seg)) by {
                    assert(!is_digit(seg[i - from]));
                }
            }
            return false;
        }
        i += 1;
    }
    true
}

/// Finds the first '.' at or after `start`.
fn find_dot(s: &str, start: usize) -> (r: Option<usize>)
    requires
        start <= s@.len(),
    ensures
        r matches Some(i) ==> start <= i < s@.len() && s@[i as int] == '.' && forall|j: int|
            start <= j < i ==> s@[j] != '.',
        r is None ==> forall|j: int| start <= j < s@.len() ==> s@[j] != '.',
{
    let len = s.unicode_len();
    let mut i: usize = start;
    while i < len
        invariant
            start <= i <= len,
            len == s@.len(),
            forall|j: int| start <= j < i ==> s@[j] != '.',
        decreases len - i,
    {
        if s.get_char(i) == '.' {
            return Some(i);
        }
        i += 1;
    }
    None
}

/// Applies the zero-padding step of lenient parsing to `s`.
fn pad_version(s: &str) -> (r: String)
    ensures
        r@ == pad_spec(s@),
{
    let len = s.unicode_len();
    proof {
        assert(!is_digit('.')) by {
            assert(('.' as int) < ('0' as int));
        }
    }
    match find_dot(s, 0) {
        None => {
            if len > 0 && digits_in_range(s, 0, len) {
                proof {
                    assert(s@.subrange(0, len as int) =~= s@);
                }
                let mut out = s.to_owned();
                out.append(".0.0");
                proof {
                    reveal_strlit(".0.0");
                    assert(".0.0"@ =~= seq!['.', '0', '.', '0']);
                }
                out
            } else {
                proof {
                    if len > 0 {
                        assert(s@.subrange(0, len as int) =~= s@);
                    }
                    assert(!(s@.len() > 0 && all_digits(s@)));
                    assert(!two_part_form(s@)) by {
                        assert(forall|i: int| 1 <= i < s@.len() - 1 ==> s@[i] != '.');
                    }
                }
                s.to_owned()
            }
        },
        Some(d) => {
            proof {
                assert(!all_digits(s@)) by {
                    assert(!is_digit(s@[d as int]));
                }
            }
            if d < 1 || len - d < 2 {
                proof {
                    assert(!two_part_form(s@)) by {
                        assert forall|i: int|
                            1 <= i < s@.len() - 1 && s@[i] == '.' && all_digits(
                                #[trigger] s@.take(i),
                            ) && all_digits(s@.skip(i + 1)) implies false by {
                            if i > d {
                                assert(!all_digits(s@.take(i))) by {
                                    assert(s@.take(i)[d as int] == s@[d as int]);
                                    assert(!is_digit(s@.take(i)[d as int]));
                                }
                            } else {
                                assert(i == d);
                            }
                        }
                    }
                }
                return s.to_owned();
            }
            let second = find_dot(s, d + 1);
            let dig_head = digits_in_range(s, 0, d);
            let dig_tail = digits_in_range(s, d + 1, len);
            proof {
                assert(s@.take(d as int) =~= s@.subrange(0, d as int));
                assert(s@.skip(d + 1) =~= s@.subrange(d + 1, len as int));
            }
            let pad_ok = second.is_none() && dig_head && dig_tail;
            if pad_ok {
                proof {
                    assert(two_part_form(s@)) by {
                        assert(s@.take(d as int) =~= s@.subrange(0, d as int));
                        assert(s@.skip(d + 1) =~= s@.subrange(d + 1, len as int));
                        assert(1 <= d < s@.len() - 1 && s@[d as int] == '.' && all_digits(
                            s@.take(d as int),
                        ) && all_digits(s@.skip(d + 1)));
                    }
                }
                let mut out = s.to_owned();
                out.append(".0");
                proof {
                    reveal_strlit(".0");
                    assert(".0"@ =~= seq!['.', '0']);
                }
                out
            } else {
                proof {
                    match second {
                        Some(m) => {
                            assert(!all_digits(s@.skip(d + 1))) by {
                                assert(s@.skip(d + 1)[m - (d + 1)] == s@[m as int]);
                                assert(!is_digit(s@.skip(d + 1)[m - (d + 1)]));
                            }
                        },
                        None => {},
                    }
                    assert(!two_part_form(s@)) by {
                        assert forall|i: int|
                            1 <= i < s@.len() - 1 && s@[i] == '.' && all_digits(
                                #[trigger] s@.take(i),
                            ) && all_digits(s@.skip(i + 1)) implies false by {
                            if i > d {
                                assert(!all_digits(s@.take(i))) by {
                                    assert(s@.take(i)[d as int] == s@[d as int]);
                                    assert(!is_digit(s@.take(i)[d as int]));
                                }
                            } else {
                                assert(i == d);
                            }
                        }
                    }
                }
                s.to_owned()
            }
        },
    }
}

/// Parses a version string leniently: "1.0" and "2" gain zero components,
/// a string that already has three components goes to the strict parser as
/// it stands, and anything else fails.
pub fn lenient_parse(s: &str) -> (r: Option<SemVersion>)
    ensures
        r is Some <==> lenient_parse_spec(s@) is Some,
        r matches Some(v) ==> Some(v.parts()) == lenient_parse_spec(s@) && v.wf(),
{
    let padded = pad_version(s);
    parse_version(padded.as_str())
}

/// Decides `version_lt` on two well-formed parsed versions.
pub fn version_lt_exec(a: &SemVersion, b: &SemVersion) -> (r: bool)
    requires
        a.wf(),
        b.wf(),
    ensures
        r == version_lt(a.parts(), b.parts()),
{
    version_text_lt(a.text.as_str(), b.text.as_str())
}

/// Decides whether semver's requirement grammar accepts the string.
pub fn req_accepted_check(s: &str) -> (r: bool)
    ensures
        r == req_accepted(s@),
{
    req_accepted_exec(s)
}

/// Decides whether the requirement written in `req` admits the version
/// written in `v`.
pub fn req_match_check(req: &str, v: &str) -> (r: Option<bool>)
    ensures
        r == req_match(req@, v@),
        req_accepted(req@) && strict_parse(v@) is Some ==> r is Some,
{
    req_match_exec(req, v)
}

} // verus!
