//! The build-engine version requirement: the engine must report a semantic
//! version of at least 23, with no pre-release part.
use vstd::prelude::*;

verus! {

/// A parsed semantic version: the numeric triple and the pre-release text.
pub struct Version {
    pub major: u64,
    pub minor: u64,
    pub patch: u64,
    pub pre: String,
}

/// Why a reported version is refused.
#[derive(Clone, Copy, PartialEq, Eq, Structural, Debug)]
pub enum VersionError {
    /// The text is not a semantic version.
    Unparseable,
    /// The version does not meet the minimum the build needs; the numbers
    /// carried are what the engine reported.
    TooOld { major: u64, minor: u64, patch: u64 },
}

/// What parsing a version text yields: major, minor, patch and pre-release of
/// the semantic version the text denotes, or nothing when it denotes none.
pub uninterp spec fn parsed_version(s: Seq<char>) -> Option<(u64, u64, u64, Seq<char>)>;

/// Relies on semver::Version::parse: the result depends on the text alone;
/// major, minor, patch and the pre-release text are handed through unchanged.
#[verifier::external_body]
pub fn parse_version(s: &str) -> (r: Option<Version>)
    ensures
        match r {
            Some(v) => parsed_version(s@) == Some((v.major, v.minor, v.patch, v.pre@)),
            None => parsed_version(s@) is None,
        },
{
    match semver::Version::parse(s) {
        Ok(v) => Some(
            Version {
                major: v.major,
                minor: v.minor,
                patch: v.patch,
                pre: v.pre.as_str().to_string(),
            },
        ),
        Err(_) => None,
    }
}

/// At least major version twenty-three, and no pre-release, which a plain
/// minimum requirement never admits.
pub open spec fn min_version_ok(major: u64, pre: Seq<char>) -> bool {
    pre.len() == 0 && major >= 23
}

/// Does a parsed version satisfy the minimum the build needs?
pub fn version_meets_minimum(v: &Version) -> (r: bool)
    ensures
        r == min_version_ok(v.major, v.pre@),
{
    v.pre.as_str().is_empty() && v.major >= 23
}

/// Parse the engine's reported version text and hold it to the minimum.
pub fn check_docker_version(version_text: &str) -> (r: Result<Version, VersionError>)
    ensures
        match r {
            Ok(v) => parsed_version(version_text@) == Some((v.major, v.minor, v.patch, v.pre@))
                && min_version_ok(v.major, v.pre@),
            Err(VersionError::Unparseable) => parsed_version(version_text@) is None,
            Err(VersionError::TooOld { major, minor, patch }) => match parsed_version(
                version_text@,
            ) {
                Some(t) => t.0 == major && t.1 == minor && t.2 == patch && !min_version_ok(
                    t.0,
                    t.3,
                ),
                None => false,
            },
        },
{
    match parse_version(version_text) {
        Some(v) => {
            if version_meets_minimum(&v) {
                Ok(v)
            } else {
                Err(VersionError::TooOld { major: v.major, minor: v.minor, patch: v.patch })
            }
        },
        None => Err(VersionError::Unparseable),
    }
}

} // verus!
