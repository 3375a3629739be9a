//! Firmware versions: the first three numeric components of a dotted revision.

use vstd::prelude::*;

use crate::text::{
    decimal, is_digit, lemma_decimal_digits, lemma_first_index_unique, lemma_parse_decimal, find_char, first_index, lemma_first_index, parse_u64, parse_u64_in, push_decimal,
    IntErrorKind, Precedence,
};
use semver::Version as SemverVersion;
use semver::Error as SemverError;
use semver::VersionReq as SemverVersionReq;

verus! {

/// The `semver` crate's version type, carried through where callers want it.
#[verifier::external_type_specification]
#[verifier::external_body]
pub struct ExSemverVersion(SemverVersion);

/// The `semver` crate's version requirement type.
#[verifier::external_type_specification]
#[verifier::external_body]
pub struct ExSemverVersionReq(SemverVersionReq);

/// The `semver` crate's parse error.
#[verifier::external_type_specification]
#[verifier::external_body]
pub struct ExSemverError(SemverError);

/// The value that `semver::Version::new` gives for a release `major.minor.patch`.
pub uninterp spec fn semver_release(major: u64, minor: u64, patch: u64) -> SemverVersion;

/// Calls `semver::Version::new`: the release `major.minor.patch` without pre-release or build
/// metadata, named `semver_release`.
#[verifier::external_body]
fn semver_version_new(major: u64, minor: u64, patch: u64) -> (r: SemverVersion)
    ensures
        r == semver_release(major, minor, patch),
{
    SemverVersion::new(major, minor, patch)
}

/// Whether `semver::VersionReq::parse` accepts the text.
pub uninterp spec fn semver_req_valid(text: Seq<char>) -> bool;

/// Whether the requirement parsed from the text `req` admits the release
/// `major.minor.patch` (`semver::VersionReq::matches`).
pub uninterp spec fn req_admits(req: Seq<char>, major: u64, minor: u64, patch: u64) -> bool;

/// Calls `semver::VersionReq::parse` and keeps, with what it gives, the text it was given: it
/// accepts exactly the texts of `semver_req_valid`.
#[verifier::external_body]
fn semver_req_parse(text: &str) -> (r: Result<VersionRequirement, SemverError>)
    ensures
        r is Ok <==> semver_req_valid(text@),
        r matches Ok(q) ==> q.text() == text@,
{
    match SemverVersionReq::parse(text) {
        Ok(parsed) => Ok(VersionRequirement { text: text.to_owned(), parsed }),
        Err(e) => Err(e),
    }
}

/// A version requirement, with the text it was parsed from (a value of this type is only made
/// by `semver_req_parse`, which parses that text).
pub struct VersionRequirement {
    text: String,
    parsed: SemverVersionReq,
}

impl VersionRequirement {
    /// The text the requirement was parsed from.
    pub closed spec fn text(&self) -> Seq<char> {
        self.text@
    }

    /// Parses a version requirement, as `semver` writes them (`^11`, `>=10.0, <12`).
    pub fn parse(text: &str) -> (r: Result<Self, SemverError>)
        ensures
            r is Ok <==> semver_req_valid(text@),
            r matches Ok(q) ==> q.text() == text@,
    {
        semver_req_parse(text)
    }

    /// The text the requirement was parsed from.
    pub fn as_str(&self) -> (r: &str)
        ensures
            r@ == self.text(),
    {
        self.text.as_str()
    }
}

/// A release as `semver` holds it, with its three numbers.
struct SemverRelease {
    major: u64,
    minor: u64,
    patch: u64,
    inner: SemverVersion,
}

impl SemverRelease {
    /// The `semver` value is the one made from the three numbers.
    #[verifier::type_invariant]
    spec fn made_from_numbers(self) -> bool {
        self.inner == semver_release(self.major, self.minor, self.patch)
    }

    fn new(major: u64, minor: u64, patch: u64) -> (r: Self)
        ensures
            r.major == major && r.minor == minor && r.patch == patch,
    {
        SemverRelease { major, minor, patch, inner: semver_version_new(major, minor, patch) }
    }
}

/// Calls `semver::VersionReq::matches` on the requirement parsed from the requirement's text
/// (`semver_req_parse` pairs the two) and the release made from the three numbers (the type
/// invariant of `SemverRelease` pairs those).
#[verifier::external_body]
fn semver_req_matches(req: &VersionRequirement, version: &SemverRelease) -> (r: bool)
    ensures
        r == req_admits(req.text(), version.major, version.minor, version.patch),
{
    req.parsed.matches(&version.inner)
}

/// The version of a firmware release.
///
/// Firmware revisions aren't strict semver:
/// - some have more than three components (a build number tail, dropped here), and
/// - some have fewer (rejected, since major/minor/patch can't all be inferred).
///
/// Because the tail is dropped, two revisions differing only there, `10.0.2.1` and `10.0.2.2`,
/// are one and the same version here.
#[derive(Clone, Copy, Debug, PartialEq, Eq, Structural, Hash, PartialOrd, Ord)]
pub struct Version {
    pub major: u64,
    pub minor: u64,
    pub patch: u64,
}

/// The order of versions: by major, then minor, then patch.
pub open spec fn version_before(a: Version, b: Version) -> bool {
    ||| a.major < b.major
    ||| (a.major == b.major && a.minor < b.minor)
    ||| (a.major == b.major && a.minor == b.minor && a.patch < b.patch)
}

/// The characters of `s` up to its first `.`.
pub open spec fn dot_field(s: Seq<char>) -> Seq<char> {
    s.subrange(0, first_index(s, '.') as int)
}

/// The characters of `s` after its first `.`, if it has one.
pub open spec fn after_dot(s: Seq<char>) -> Option<Seq<char>> {
    if first_index(s, '.') < s.len() {
        Some(s.subrange(first_index(s, '.') + 1int, s.len() as int))
    } else {
        None
    }
}

/// The field that `splitn(4, '.')` gives at second place (the empty text where there is none).
pub open spec fn minor_field(s: Seq<char>) -> Seq<char> {
    match after_dot(s) {
        Some(r) => dot_field(r),
        None => Seq::empty(),
    }
}

/// The field that `splitn(4, '.')` gives at third place (the empty text where there is none).
pub open spec fn patch_field(s: Seq<char>) -> Seq<char> {
    match after_dot(s) {
        Some(r) => match after_dot(r) {
            Some(r2) => dot_field(r2),
            None => Seq::empty(),
        },
        None => Seq::empty(),
    }
}

/// The version that a dotted revision coerces to: its first three fields parsed as `u64`, the
/// rest ignored; or the error of the first field that does not parse.
pub open spec fn coerce_revision(s: Seq<char>) -> Result<Version, IntErrorKind> {
    match parse_u64(dot_field(s)) {
        Err(e) => Err(e),
        Ok(major) => match parse_u64(minor_field(s)) {
            Err(e) => Err(e),
            Ok(minor) => match parse_u64(patch_field(s)) {
                Err(e) => Err(e),
                Ok(patch) => Ok(Version { major, minor, patch }),
            },
        },
    }
}

/// The text of a version: `major.minor.patch` in decimal.
pub open spec fn version_text(v: Version) -> Seq<char> {
    decimal(v.major as nat) + seq!['.'] + decimal(v.minor as nat) + seq!['.'] + decimal(
        v.patch as nat,
    )
}

impl Version {
    /// Create a [`Version`]
    pub fn new(major: u64, minor: u64, patch: u64) -> (r: Self)
        ensures
            r == (Version { major, minor, patch }),
    {
        Version { major, minor, patch }
    }

    /// Coerce a dotted revision into a version by keeping only its first three components.
    pub fn try_coerced(revision: &str) -> (r: Result<Self, IntErrorKind>)
        ensures
            r == coerce_revision(revision@),
    {
        let ghost s = revision@;
        let len: usize = revision.unicode_len();
        let i1: usize = find_char(revision, '.', 0);
        proof {
            assert(s.subrange(0, len as int) =~= s);
            lemma_first_index(s, '.');
        }
        let major: u64 = match parse_u64_in(revision, 0, i1) {
            Err(e) => {
                return Err(e);
            },
            Ok(v) => v,
        };
        if i1 == len {
            proof {
                assert(minor_field(s) == Seq::<char>::empty());
            }
            return Err(IntErrorKind::Empty);
        }
        let s2: usize = i1 + 1;
        let i2: usize = find_char(revision, '.', s2);
        let ghost r1 = s.subrange(s2 as int, len as int);
        proof {
            assert(after_dot(s) == Some(r1));
            lemma_first_index(r1, '.');
            assert(dot_field(r1) =~= s.subrange(s2 as int, i2 as int));
        }
        let minor: u64 = match parse_u64_in(revision, s2, i2) {
            Err(e) => {
                return Err(e);
            },
            Ok(v) => v,
        };
        if i2 == len {
            proof {
                assert(after_dot(r1) is None);
                assert(patch_field(s) == Seq::<char>::empty());
            }
            return Err(IntErrorKind::Empty);
        }
        let s3: usize = i2 + 1;
        let i3: usize = find_char(revision, '.', s3);
        let ghost r2 = s.subrange(s3 as int, len as int);
        proof {
            assert(r1.subrange(first_index(r1, '.') + 1int, r1.len() as int) =~= r2);
            assert(after_dot(r1) == Some(r2));
            assert(dot_field(r2) =~= s.subrange(s3 as int, i3 as int));
        }
        let patch: u64 = match parse_u64_in(revision, s3, i3) {
            Err(e) => {
                return Err(e);
            },
            Ok(v) => v,
        };
        Ok(Version { major, minor, patch })
    }

    /// Whether this version satisfies a requirement.
    pub fn matches(&self, req: &VersionRequirement) -> (r: bool)
        ensures
            r == req_admits(req.text(), self.major, self.minor, self.patch),
    {
        let v = SemverRelease::new(self.major, self.minor, self.patch);
        semver_req_matches(req, &v)
    }

    /// The version in the form the `semver` crate compares, for callers outside this crate.
    pub fn semver(&self) -> (r: SemverVersion)
        ensures
            r == semver_release(self.major, self.minor, self.patch),
    {
        semver_version_new(self.major, self.minor, self.patch)
    }

    /// The version as text, `major.minor.patch`.
    pub fn to_string(&self) -> (r: String)
        ensures
            r@ == version_text(*self),
    {
        let mut out = String::new();
        push_decimal(&mut out, self.major);
        out.append(".");
        push_decimal(&mut out, self.minor);
        out.append(".");
        push_decimal(&mut out, self.patch);
        proof {
            reveal_strlit(".");
            assert(out@ =~= version_text(*self));
        }
        out
    }

    /// Compares two versions by major, then minor, then patch.
    pub fn compare(&self, other: &Version) -> (r: Precedence)
        ensures
            r == Precedence::Same <==> *self == *other,
            r == Precedence::Before <==> version_before(*self, *other),
            r == Precedence::After <==> version_before(*other, *self),
            self.major < other.major ==> r == Precedence::Before,
            self.major == other.major && self.minor < other.minor ==> r == Precedence::Before,
            self.major == other.major && self.minor == other.minor ==> (r == Precedence::Before
                <==> self.patch < other.patch),
    {
        if self.major != other.major {
            if self.major < other.major {
                Precedence::Before
            } else {
                Precedence::After
            }
        } else if self.minor != other.minor {
            if self.minor < other.minor {
                Precedence::Before
            } else {
                Precedence::After
            }
        } else if self.patch != other.patch {
            if self.patch < other.patch {
                Precedence::Before
            } else {
                Precedence::After
            }
        } else {
            Precedence::Same
        }
    }
}


/// A release with a higher major number is newer, whatever its minor and patch numbers: majors
/// are compared as numbers, so `10.12.0` is newer than `9.80.3`.
pub proof fn lemma_higher_major_is_newer(a: Version, b: Version)
    requires
        a.major < b.major,
    ensures
        version_before(a, b),
        !version_before(b, a),
{
}

/// Within one major number, a release with a higher minor number is newer, whatever its patch
/// number.
pub proof fn lemma_higher_minor_is_newer(a: Version, b: Version)
    requires
        a.major == b.major,
        a.minor < b.minor,
    ensures
        version_before(a, b),
        !version_before(b, a),
{
}

/// Within one `major.minor` line, releases are ordered as their patch numbers are, as numbers:
/// `11.11.99` comes before `11.11.100`.
pub proof fn lemma_patch_order_is_numeric(a: Version, b: Version)
    requires
        a.major == b.major,
        a.minor == b.minor,
    ensures
        version_before(a, b) <==> a.patch < b.patch,
{
}

/// The order of versions is a strict total order: of two different versions exactly one comes
/// first, and no version comes before itself.
pub proof fn lemma_version_order_total(a: Version, b: Version)
    ensures
        !version_before(a, a),
        a != b ==> (version_before(a, b) <==> !version_before(b, a)),
{
}

/// In digits followed by nothing or by a `.`, the first `.` stands right after the digits.
proof fn lemma_dot_after_digits(x: Seq<char>, y: Seq<char>)
    requires
        forall|i: int| 0 <= i < x.len() ==> is_digit(#[trigger] x[i]),
        y.len() == 0 || y[0] == '.',
    ensures
        first_index(x + y, '.') == x.len(),
        dot_field(x + y) == x,
{
    let s = x + y;
    assert forall|j: int| 0 <= j < x.len() implies s[j] != '.' by {
        assert(s[j] == x[j]);
        assert(is_digit(x[j]));
    }
    if x.len() < s.len() {
        assert(s[x.len() as int] == y[0]);
    }
    lemma_first_index_unique(s, '.', x.len() as int);
    assert(s.subrange(0, x.len() as int) =~= x);
}

/// A version's text, followed by nothing or by a `.` and any tail, coerces to the version.
#[verifier::spinoff_prover]
#[verifier::rlimit(40)]
proof fn lemma_version_text_then(v: Version, suffix: Seq<char>)
    requires
        suffix.len() == 0 || suffix[0] == '.',
    ensures
        coerce_revision(version_text(v) + suffix) == Ok::<Version, IntErrorKind>(v),
{
    let a = decimal(v.major as nat);
    let b = decimal(v.minor as nat);
    let c = decimal(v.patch as nat);
    lemma_decimal_digits(v.major as nat);
    lemma_decimal_digits(v.minor as nat);
    lemma_decimal_digits(v.patch as nat);
    lemma_parse_decimal(v.major);
    lemma_parse_decimal(v.minor);
    lemma_parse_decimal(v.patch);
    let s = version_text(v) + suffix;
    let r1 = b + seq!['.'] + c + suffix;
    let r2 = c + suffix;
    assert(s =~= a + (seq!['.'] + r1));
    lemma_dot_after_digits(a, seq!['.'] + r1);
    assert(s.subrange(a.len() + 1int, s.len() as int) =~= r1);
    assert(after_dot(s) == Some(r1));
    assert(r1 =~= b + (seq!['.'] + r2));
    lemma_dot_after_digits(b, seq!['.'] + r2);
    assert(r1.subrange(b.len() + 1int, r1.len() as int) =~= r2);
    assert(after_dot(r1) == Some(r2));
    lemma_dot_after_digits(c, suffix);
}

/// A version's text coerces back to the version: `try_coerced(v.to_string()) == Ok(v)`.
pub proof fn lemma_version_text_round_trip(v: Version)
    ensures
        coerce_revision(version_text(v)) == Ok::<Version, IntErrorKind>(v),
{
    lemma_version_text_then(v, Seq::empty());
    assert(version_text(v) + Seq::empty() =~= version_text(v));
}

/// The build number tail is dropped: a revision that extends a version's text by a `.` and
/// anything at all coerces to that same version, so `10.0.2.1` and `10.0.2.2` are one version.
pub proof fn lemma_version_tail_dropped(v: Version, tail: Seq<char>)
    ensures
        coerce_revision(version_text(v) + seq!['.'] + tail) == Ok::<Version, IntErrorKind>(v),
{
    lemma_version_text_then(v, seq!['.'] + tail);
    assert(version_text(v) + seq!['.'] + tail =~= version_text(v) + (seq!['.'] + tail));
}

} // verus!
