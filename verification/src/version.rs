//! The version stamp of a collection's storage.
//!
//! A collection's directory records the version of the engine that wrote it.
//! Storage can be opened by the same version, and by the next patch release,
//! which then takes the storage over.

use vstd::prelude::*;

verus! {

/// A version: three numbers, a pre-release tag and build metadata. The two
/// texts are empty when the version has none.
pub struct Version {
    pub major: u64,
    pub minor: u64,
    pub patch: u64,
    pub pre: String,
    pub build: String,
}

impl View for Version {
    type V = (u64, u64, u64, Seq<char>, Seq<char>);

    open spec fn view(&self) -> Self::V {
        (self.major, self.minor, self.patch, self.pre@, self.build@)
    }
}

/// What `semver::Version::parse` makes of a text: the parts of the version,
/// or `None` when the text is no version.
pub uninterp spec fn semver_parse(text: Seq<char>) -> Option<(u64, u64, u64, Seq<char>, Seq<char>)>;

/// The parts of an optional version.
pub open spec fn parts(version: Option<Version>) -> Option<(u64, u64, u64, Seq<char>, Seq<char>)> {
    match version {
        Some(v) => Some(v@),
        None => None,
    }
}

/// Parses a version with `semver::Version::parse`. The result is that
/// function's result on the same text, field by field; a text that it
/// rejects gives `None`. Not proved: that the result depends on the text
/// alone is read off the parser, which looks at nothing else.
#[verifier::external_body]
fn parse_version(text: &str) -> (version: Option<Version>)
    ensures
        parts(version) == semver_parse(text@),
{
    match semver::Version::parse(text) {
        Ok(v) => Some(
            Version {
                major: v.major,
                minor: v.minor,
                patch: v.patch,
                pre: v.pre.as_str().to_string(),
                build: v.build.as_str().to_string(),
            },
        ),
        Err(_) => None,
    }
}

/// Whether `semver` orders the version with the parts `a` behind the
/// version with the parts `b`: whether `a` is the newer one.
pub uninterp spec fn semver_newer(
    a: (u64, u64, u64, Seq<char>, Seq<char>),
    b: (u64, u64, u64, Seq<char>, Seq<char>),
) -> bool;

/// True when the version with the parts `a` is newer than the version with
/// the parts `b`. The three numbers decide where they differ, the first
/// difference from the left; equal versions are not newer; what is left, the
/// order of pre-releases and builds of one release, is as `semver` has it.
pub open spec fn newer(
    a: (u64, u64, u64, Seq<char>, Seq<char>),
    b: (u64, u64, u64, Seq<char>, Seq<char>),
) -> bool {
    if a.0 != b.0 {
        a.0 > b.0
    } else if a.1 != b.1 {
        a.1 > b.1
    } else if a.2 != b.2 {
        a.2 > b.2
    } else if a == b {
        false
    } else {
        semver_newer(a, b)
    }
}

/// Compares two versions with the order of `semver::Version`, which orders
/// by major, minor and patch number, then by pre-release, then by build. A
/// pre-release or build text that `semver` does not take counts as empty.
/// Not proved: that the numbers decide where they differ and that equal
/// versions are equal in the order is read off the source of `semver`, where
/// the order is derived from the fields in that sequence.
#[verifier::external_body]
fn is_newer(a: &Version, b: &Version) -> (r: bool)
    ensures
        r == semver_newer(a@, b@),
        a.major != b.major ==> r == (a.major > b.major),
        a.major == b.major && a.minor != b.minor ==> r == (a.minor > b.minor),
        a.major == b.major && a.minor == b.minor && a.patch != b.patch ==> r == (a.patch
            > b.patch),
        a@ == b@ ==> !r,
{
    let pre = |v: &Version| semver::Prerelease::new(&v.pre).unwrap_or(semver::Prerelease::EMPTY);
    let build = |v: &Version|
        semver::BuildMetadata::new(&v.build).unwrap_or(semver::BuildMetadata::EMPTY);
    let a = semver::Version { major: a.major, minor: a.minor, patch: a.patch, pre: pre(a), build: build(a) };
    let b = semver::Version { major: b.major, minor: b.minor, patch: b.patch, pre: pre(b), build: build(b) };
    a > b
}

/// What opening the storage comes to.
#[derive(Clone, Copy, Debug, PartialEq, Eq, Structural)]
pub enum StorageVersionCheck {
    /// The storage was written by this version.
    UpToDate,
    /// The storage was written by the patch release before this one, or
    /// differs in its tags only: it is taken over and stamped anew.
    Migrate,
    /// The storage was written by a later version.
    TooNew,
    /// The storage is too old to be taken over in one step.
    Incompatible,
}

impl Version {
    /// Parses a version; `None` when the text is no version.
    pub fn parse(text: &str) -> (version: Option<Version>)
        ensures
            parts(version) == semver_parse(text@),
    {
        parse_version(text)
    }

    /// True when storage written by `stored` can be opened by `app`: the
    /// major and minor numbers agree and the patch number of `app` is at most
    /// one more than that of `stored`.
    pub open spec fn upgrades_to(stored: &Version, app: &Version) -> bool {
        stored.major == app.major && stored.minor == app.minor && app.patch <= stored.patch + 1
    }

    /// What opening storage written by `stored` with `app` comes to, where
    /// `stored_is_newer` says whether `stored` is the newer version.
    pub open spec fn verdict(stored: &Version, app: &Version, stored_is_newer: bool) -> StorageVersionCheck {
        if stored_is_newer {
            StorageVersionCheck::TooNew
        } else if stored@ == app@ {
            StorageVersionCheck::UpToDate
        } else if Version::upgrades_to(stored, app) {
            StorageVersionCheck::Migrate
        } else {
            StorageVersionCheck::Incompatible
        }
    }

    /// What opening storage written by `stored` with `app` comes to.
    pub open spec fn spec_check(stored: &Version, app: &Version) -> StorageVersionCheck {
        Version::verdict(stored, app, newer(stored@, app@))
    }
}

/// Whether storage written by version `stored` can be opened by version
/// `app`: the major and minor numbers agree and the patch number of `app` is
/// at most one more than that of `stored`.
pub fn can_upgrade_storage(stored: &Version, app: &Version) -> (b: bool)
    ensures
        b == Version::upgrades_to(stored, app),
{
    if stored.major != app.major {
        return false;
    }
    if stored.minor != app.minor {
        return false;
    }
    if app.patch > stored.patch && app.patch - stored.patch > 1 {
        return false;
    }
    true
}

/// Decides what opening storage written by `stored` with `app` comes to,
/// where `stored_is_newer` says whether `stored` is the newer version.
/// Storage of a newer version is too new. The same version is up to date. A
/// version that can be upgraded is migrated, and any other is refused.
pub fn storage_verdict(stored: &Version, app: &Version, stored_is_newer: bool) -> (check:
    StorageVersionCheck)
    ensures
        check == Version::verdict(stored, app, stored_is_newer),
{
    if stored_is_newer {
        return StorageVersionCheck::TooNew;
    }
    let same = stored.major == app.major && stored.minor == app.minor && stored.patch == app.patch
        && stored.pre == app.pre && stored.build == app.build;
    if same {
        StorageVersionCheck::UpToDate
    } else if can_upgrade_storage(stored, app) {
        StorageVersionCheck::Migrate
    } else {
        StorageVersionCheck::Incompatible
    }
}

/// Decides what opening storage written by `stored` with `app` comes to.
/// Which version is the newer one is decided as `semver` orders versions: a
/// pre-release comes before its release.
pub fn check_storage_version(stored: &Version, app: &Version) -> (check: StorageVersionCheck)
    ensures
        check == Version::spec_check(stored, app),
{
    storage_verdict(stored, app, is_newer(stored, app))
}

/// Decides what opening storage comes to from the two version texts: that
/// of the storage and that of the engine. `None` when one of the texts is no
/// version.
pub fn check_storage_version_texts(stored: &str, app: &str) -> (check: Option<StorageVersionCheck>)
    ensures
        check == spec_check_parsed(semver_parse(stored@), semver_parse(app@)),
{
    match Version::parse(stored) {
        None => None,
        Some(stored_version) => match Version::parse(app) {
            None => None,
            Some(app_version) => Some(check_storage_version(&stored_version, &app_version)),
        },
    }
}

/// The verdict of [`check_storage_version_texts`] over the two parsed texts: none where
/// either text is no version.
pub open spec fn spec_check_parsed(
    stored: Option<(u64, u64, u64, Seq<char>, Seq<char>)>,
    app: Option<(u64, u64, u64, Seq<char>, Seq<char>)>,
) -> Option<StorageVersionCheck> {
    match (stored, app) {
        (Some(s), Some(a)) => Some(
            if newer(s, a) {
                StorageVersionCheck::TooNew
            } else if s == a {
                StorageVersionCheck::UpToDate
            } else if s.0 == a.0 && s.1 == a.1 && a.2 <= s.2 + 1 {
                StorageVersionCheck::Migrate
            } else {
                StorageVersionCheck::Incompatible
            },
        ),
        _ => None,
    }
}

} // verus!
