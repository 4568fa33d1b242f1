//! Why a dependency cannot be resolved.
use vstd::prelude::*;

use crate::docs::{docs_message, DocsError, DocsFault};
use crate::manifest::{manifest_message, ManifestError, ManifestFault};
use crate::resolve::git::{git_message, GitError, GitFault};
use crate::resolve::lockfile::{lockfile_message, LockfileError, LockfileFault};
use crate::text::{concat2, concat3, concat4, concat5, concat6, concat7};

verus! {

/// Why a dependency cannot be resolved, fetched or installed.
#[derive(Debug, PartialEq, Eq)]
pub enum ResolveError {
    /// A manifest cannot be read, written or used.
    Manifest(ManifestError),
    /// The lock cannot be read or written.
    Lockfile(LockfileError),
    /// What lies at `path` cannot be accessed.
    Io { path: String, reason: String },
    /// `value` is no version.
    InvalidVersion { value: String, reason: String },
    /// `value` is no requirement on versions.
    InvalidVersionReq { value: String, reason: String },
    /// The registry has no version of the package.
    PackageNotInRegistry { package: String, registry_root: String },
    /// The registry has not the version that was asked for.
    PinnedVersionNotAvailable { package: String, version: String },
    /// No version in the registry meets the requirement.
    NoMatchingVersion { package: String, range: String },
    /// The package manifest at `path` declares another name.
    PackageNameMismatch { path: String, expected: String, found: String },
    /// The registry has not the version that the lock pins.
    LockedVersionNotInRegistry { name: String, version: String, registry_root: String },
    /// The contents are not those that the lock pins.
    ChecksumMismatch { name: String, version: String, expected: String, actual: String },
    /// The project manifest has no entry for the package.
    NotADependency { package: String },
    /// The project manifest's entry for the package is a git source.
    NotARegistryDependency { package: String },
    /// No temporary directory can be made.
    TempDir { reason: String },
    /// A git repository cannot be fetched.
    Git(GitError),
    /// The lock names a source of no known form.
    UnknownSource { name: String, version: String, pkg_source: String },
    /// The package's documentation cannot be written.
    Docs(DocsError),
}

/// What a `ResolveError` says.
#[verifier::ext_equal]
pub enum ResolveFault {
    Manifest(ManifestFault),
    Lockfile(LockfileFault),
    Io { path: Seq<char>, reason: Seq<char> },
    InvalidVersion { value: Seq<char>, reason: Seq<char> },
    InvalidVersionReq { value: Seq<char>, reason: Seq<char> },
    PackageNotInRegistry { package: Seq<char>, registry_root: Seq<char> },
    PinnedVersionNotAvailable { package: Seq<char>, version: Seq<char> },
    NoMatchingVersion { package: Seq<char>, range: Seq<char> },
    PackageNameMismatch { path: Seq<char>, expected: Seq<char>, found: Seq<char> },
    LockedVersionNotInRegistry { name: Seq<char>, version: Seq<char>, registry_root: Seq<char> },
    ChecksumMismatch {
        name: Seq<char>,
        version: Seq<char>,
        expected: Seq<char>,
        actual: Seq<char>,
    },
    NotADependency { package: Seq<char> },
    NotARegistryDependency { package: Seq<char> },
    TempDir { reason: Seq<char> },
    Git(GitFault),
    UnknownSource { name: Seq<char>, version: Seq<char>, pkg_source: Seq<char> },
    Docs(DocsFault),
}

impl DeepView for ResolveError {
    type V = ResolveFault;

    open spec fn deep_view(&self) -> ResolveFault {
        match self {
            ResolveError::Manifest(e) => ResolveFault::Manifest(e.deep_view()),
            ResolveError::Lockfile(e) => ResolveFault::Lockfile(e.deep_view()),
            ResolveError::Io { path, reason } => ResolveFault::Io { path: path@, reason: reason@ },
            ResolveError::InvalidVersion { value, reason } => ResolveFault::InvalidVersion {
                value: value@,
                reason: reason@,
            },
            ResolveError::InvalidVersionReq { value, reason } => ResolveFault::InvalidVersionReq {
                value: value@,
                reason: reason@,
            },
            ResolveError::PackageNotInRegistry {
                package,
                registry_root,
            } => ResolveFault::PackageNotInRegistry {
                package: package@,
                registry_root: registry_root@,
            },
            ResolveError::PinnedVersionNotAvailable {
                package,
                version,
            } => ResolveFault::PinnedVersionNotAvailable {
                package: package@,
                version: version@,
            },
            ResolveError::NoMatchingVersion { package, range } => ResolveFault::NoMatchingVersion {
                package: package@,
                range: range@,
            },
            ResolveError::PackageNameMismatch {
                path,
                expected,
                found,
            } => ResolveFault::PackageNameMismatch {
                path: path@,
                expected: expected@,
                found: found@,
            },
            ResolveError::LockedVersionNotInRegistry {
                name,
                version,
                registry_root,
            } => ResolveFault::LockedVersionNotInRegistry {
                name: name@,
                version: version@,
                registry_root: registry_root@,
            },
            ResolveError::ChecksumMismatch {
                name,
                version,
                expected,
                actual,
            } => ResolveFault::ChecksumMismatch {
                name: name@,
                version: version@,
                expected: expected@,
                actual: actual@,
            },
            ResolveError::NotADependency { package } => ResolveFault::NotADependency {
                package: package@,
            },
            ResolveError::NotARegistryDependency {
                package,
            } => ResolveFault::NotARegistryDependency {
                package: package@,
            },
            ResolveError::TempDir { reason } => ResolveFault::TempDir { reason: reason@ },
            ResolveError::Git(e) => ResolveFault::Git(e.deep_view()),
            ResolveError::UnknownSource {
                name,
                version,
                pkg_source,
            } => ResolveFault::UnknownSource {
                name: name@,
                version: version@,
                pkg_source: pkg_source@,
            },
            ResolveError::Docs(e) => ResolveFault::Docs(e.deep_view()),
        }
    }
}

/// The message of a resolution fault.
pub open spec fn resolve_message(fault: ResolveFault) -> Seq<char> {
    match fault {
        ResolveFault::Manifest(fault) => manifest_message(fault),
        ResolveFault::Lockfile(fault) => lockfile_message(fault),
        ResolveFault::Io { path, reason } => "failed to access "@ + path + ": "@ + reason,
        ResolveFault::InvalidVersion { value, reason } => "`"@ + value
            + "` is not a valid version: "@ + reason,
        ResolveFault::InvalidVersionReq { value, reason } => "`"@ + value
            + "` is not a valid version requirement: "@ + reason,
        ResolveFault::PackageNotInRegistry { package, registry_root } => "package `"@ + package
            + "` was not found in the registry at "@ + registry_root,
        ResolveFault::PinnedVersionNotAvailable { package, version } => "`"@ + package + "@"@
            + version + "` is not available in the registry"@,
        ResolveFault::NoMatchingVersion { package, range } => "no version of `"@ + package
            + "` in the registry satisfies `"@ + range + "`"@,
        ResolveFault::PackageNameMismatch { path, expected, found } => "registry package at "@
            + path + " declares name `"@ + found + "`, expected `"@ + expected + "`"@,
        ResolveFault::LockedVersionNotInRegistry {
            name,
            version,
            registry_root,
        } => "laplace.lock references `"@ + name + "@"@ + version
            + "`, which was not found in the registry at "@ + registry_root,
        ResolveFault::ChecksumMismatch {
            name,
            version,
            expected,
            actual,
        } => "checksum mismatch for `"@
            + name + "@"@ + version + "`: laplace.lock says "@ + expected
            + ", registry contents hash to "@ + actual
            + " -- the registry copy has changed since the lock was written"@,
        ResolveFault::NotADependency { package } => "`"@ + package
            + "` is not a dependency of this project yet -- run `laplace add "@ + package
            + "` first"@,
        ResolveFault::NotARegistryDependency { package } => "`"@ + package
            + "` is a git dependency in laplace.toml -- use `laplace update "@ + package
            + "` to refresh it, not `laplace add "@ + package + "`"@,
        ResolveFault::TempDir { reason } => "failed to create a temporary directory: "@ + reason,
        ResolveFault::Git(fault) => git_message(fault),
        ResolveFault::UnknownSource {
            name,
            version,
            pkg_source,
        } => "laplace.lock has an unrecognized source `"@
            + pkg_source + "` for `"@ + name + "@"@ + version + "`"@,
        ResolveFault::Docs(fault) => docs_message(fault),
    }
}

impl ResolveError {
    /// The message of the error.
    pub fn message(&self) -> (r: String)
        ensures
            r@ == resolve_message(self.deep_view()),
    {
        match self {
            ResolveError::Manifest(e) => e.message(),
            ResolveError::Lockfile(e) => e.message(),
            ResolveError::Io { path, reason } => concat4(
                "failed to access ",
                path.as_str(),
                ": ",
                reason.as_str(),
            ),
            ResolveError::InvalidVersion { value, reason } => concat4(
                "`",
                value.as_str(),
                "` is not a valid version: ",
                reason.as_str(),
            ),
            ResolveError::InvalidVersionReq { value, reason } => concat4(
                "`",
                value.as_str(),
                "` is not a valid version requirement: ",
                reason.as_str(),
            ),
            ResolveError::PackageNotInRegistry { package, registry_root } => concat4(
                "package `",
                package.as_str(),
                "` was not found in the registry at ",
                registry_root.as_str(),
            ),
            ResolveError::PinnedVersionNotAvailable { package, version } => concat5(
                "`",
                package.as_str(),
                "@",
                version.as_str(),
                "` is not available in the registry",
            ),
            ResolveError::NoMatchingVersion { package, range } => concat5(
                "no version of `",
                package.as_str(),
                "` in the registry satisfies `",
                range.as_str(),
                "`",
            ),
            ResolveError::PackageNameMismatch { path, expected, found } => concat7(
                "registry package at ",
                path.as_str(),
                " declares name `",
                found.as_str(),
                "`, expected `",
                expected.as_str(),
                "`",
            ),
            ResolveError::LockedVersionNotInRegistry {
                name,
                version,
                registry_root,
            } => concat6(
                "laplace.lock references `",
                name.as_str(),
                "@",
                version.as_str(),
                "`, which was not found in the registry at ",
                registry_root.as_str(),
            ),
            ResolveError::ChecksumMismatch {
                name,
                version,
                expected,
                actual,
            } => concat3(
                concat7(
                    "checksum mismatch for `",
                    name.as_str(),
                    "@",
                    version.as_str(),
                    "`: laplace.lock says ",
                    expected.as_str(),
                    ", registry contents hash to ",
                ).as_str(),
                actual.as_str(),
                " -- the registry copy has changed since the lock was written",
            ),
            ResolveError::NotADependency { package } => concat5(
                "`",
                package.as_str(),
                "` is not a dependency of this project yet -- run `laplace add ",
                package.as_str(),
                "` first",
            ),
            ResolveError::NotARegistryDependency { package } => concat7(
                "`",
                package.as_str(),
                "` is a git dependency in laplace.toml -- use `laplace update ",
                package.as_str(),
                "` to refresh it, not `laplace add ",
                package.as_str(),
                "`",
            ),
            ResolveError::TempDir { reason } => concat2(
                "failed to create a temporary directory: ",
                reason.as_str(),
            ),
            ResolveError::Git(e) => e.message(),
            ResolveError::UnknownSource { name, version, pkg_source } => concat7(
                "laplace.lock has an unrecognized source `",
                pkg_source.as_str(),
                "` for `",
                name.as_str(),
                "@",
                version.as_str(),
                "`",
            ),
            ResolveError::Docs(e) => e.message(),
        }
    }
}

} // verus!
