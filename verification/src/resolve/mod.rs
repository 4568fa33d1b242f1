//! Dependency resolution: a local filesystem "registry" of package folders, `laplace add`
//! (resolve + pin + fetch), and `laplace install` (restore from `laplace.lock` alone,
//! verified by checksum).
//!
//! Packages can also come from a git repository (`git = "..."` table form in
//! `laplace.toml`). Either way the result is a plain package directory (`laplace.toml` +
//! `.stan` files), and from that point on registry- and git-sourced packages are handled
//! identically: same checksum, same cache layout.
//!
//! Nothing here touches the file system: what was read comes in as an argument, and what is
//! to be written goes out as a result.
use vstd::prelude::*;

use crate::manifest::{
    pinned_ref, Dependency, DependencyText, GitDependency, GitText, ManifestError, ManifestFault,
    PackageManifest, PackageText, ProjectManifest,
};
use crate::paths::two_parts;
use crate::resolve::checksum::{checksum_files, checksum_of, FileContents, PackageFile};
use crate::resolve::error::{ResolveError, ResolveFault};
use crate::resolve::git::{git_source, git_source_parts, git_source_text, parse_git_source};
use crate::resolve::lockfile::{LockedPackage, Pin};
use crate::resolve::version::{
    any_release, contains_version, is_latest, is_release, latest, latest_matching, semver_fault,
    semver_req_fault, versions_among, versions_of, Requirement, Version,
};
use crate::text::{concat2, deep, deep_result, same};

pub mod checksum;
pub mod error;
pub mod git;
pub mod installing;
pub mod lockfile;
pub mod version;

verus! {

// The registry ------------------------------------------------------------

/// A local filesystem package registry: `<root>/<name>/<version>/` folders, each holding a
/// package `laplace.toml` plus its `.stan` file(s).
pub struct Registry {
    root: String,
}

impl DeepView for Registry {
    type V = Seq<char>;

    closed spec fn deep_view(&self) -> Seq<char> {
        self.root@
    }
}

/// What listing a package's folder in the registry gave.
pub enum Listing {
    /// There is no such folder.
    Missing,
    /// The names of the folders in it.
    Entries(Vec<String>),
    /// The folder at `path` cannot be listed.
    Failed { path: String, reason: String },
}

/// What a listing says.
#[verifier::ext_equal]
pub enum ListingText {
    Missing,
    Entries(Seq<Seq<char>>),
    Failed { path: Seq<char>, reason: Seq<char> },
}

impl DeepView for Listing {
    type V = ListingText;

    open spec fn deep_view(&self) -> ListingText {
        match self {
            Listing::Missing => ListingText::Missing,
            Listing::Entries(names) => ListingText::Entries(deep(names@)),
            Listing::Failed { path, reason } => ListingText::Failed {
                path: path@,
                reason: reason@,
            },
        }
    }
}

/// The versions of a package in the registry: the folders with a name that spells one.
pub open spec fn available(listing: ListingText) -> Result<Seq<Seq<char>>, ResolveFault> {
    match listing {
        ListingText::Missing => Ok(seq![]),
        ListingText::Entries(names) => Ok(versions_among(names)),
        ListingText::Failed { path, reason } => Err(ResolveFault::Io { path, reason }),
    }
}

impl Registry {
    /// The registry at `root`.
    pub fn new(root: String) -> (r: Self)
        ensures
            r.deep_view() == root@,
    {
        Registry { root }
    }

    /// Where the registry is.
    pub fn root(&self) -> (r: &str)
        ensures
            r@ == self.deep_view(),
    {
        self.root.as_str()
    }

    /// The folder of a version of the package `name`, by its parts below the registry's root.
    pub fn package_dir(&self, name: &str, version: &Version) -> (r: Vec<String>)
        ensures
            deep(r@) == seq![name@, version.deep_view()],
    {
        two_parts(name, version.as_str())
    }

    /// Every version of a package available in the registry, unsorted, given what listing the
    /// package's folder, right below the registry's root, gave. Entries that aren't valid semver
    /// versions are ignored, and a package with no directory at all yields an empty list rather
    /// than an error.
    pub fn available_versions(&self, listing: Listing) -> (r: Result<
        Vec<Version>,
        ResolveError,
    >)
        ensures
            match r {
                Ok(versions) => available(listing.deep_view()) == Ok::<
                    Seq<Seq<char>>,
                    ResolveFault,
                >(deep(versions@)),
                Err(e) => available(listing.deep_view()) == Err::<
                    Seq<Seq<char>>,
                    ResolveFault,
                >(e.deep_view()),
            },
    {
        match listing {
            Listing::Missing => {
                let none: Vec<Version> = Vec::new();
                assert(deep(none@) =~= seq![]);
                Ok(none)
            },
            Listing::Entries(names) => Ok(versions_of(&names)),
            Listing::Failed { path, reason } => Err(ResolveError::Io { path, reason }),
        }
    }
}

// Choosing a version ------------------------------------------------------

/// The range that a version is written into the project manifest as.
pub open spec fn caret_range(version: Seq<char>) -> Seq<char> {
    "^"@ + version
}

/// The version asked for, where it is one of `versions`.
pub open spec fn pinned_among(
    root: Seq<char>,
    package: Seq<char>,
    version: Seq<char>,
    versions: Seq<Seq<char>>,
) -> Result<Seq<char>, ResolveFault> {
    if versions.len() == 0 {
        Err(ResolveFault::PackageNotInRegistry { package, registry_root: root })
    } else if !versions.contains(version) {
        Err(ResolveFault::PinnedVersionNotAvailable { package, version })
    } else {
        Ok(version)
    }
}

/// The version asked for, where it is one of `versions`.
pub fn choose_pinned(
    registry: &Registry,
    package: &str,
    version: Version,
    versions: &Vec<Version>,
) -> (r: Result<Version, ResolveError>)
    ensures
        deep_result(r) == pinned_among(
            registry.deep_view(),
            package@,
            version.deep_view(),
            deep(versions@),
        ),
{
    if versions.len() == 0 {
        return Err(
            ResolveError::PackageNotInRegistry {
                package: package.to_string(),
                registry_root: registry.root.clone(),
            },
        );
    }
    if !contains_version(versions, &version) {
        return Err(
            ResolveError::PinnedVersionNotAvailable {
                package: package.to_string(),
                version: version.as_str().to_string(),
            },
        );
    }
    Ok(version)
}

/// The requirement that a range makes: without one, that of a release.
pub open spec fn wanted(range: Option<Seq<char>>) -> Seq<char> {
    match range {
        Some(range) => range,
        None => any_release(),
    }
}

/// The version chosen where `best` is the latest of `versions` in the range `range`.
pub open spec fn best_among(
    root: Seq<char>,
    package: Seq<char>,
    range: Option<Seq<char>>,
    versions: Seq<Seq<char>>,
    best: Option<Seq<char>>,
) -> Result<Seq<char>, ResolveFault> {
    if versions.len() == 0 {
        Err(ResolveFault::PackageNotInRegistry { package, registry_root: root })
    } else {
        match best {
            Some(version) => Ok(version),
            None => Err(
                ResolveFault::NoMatchingVersion {
                    package,
                    range: wanted(range),
                },
            ),
        }
    }
}

/// The version chosen where `best` is the latest of `versions` in the range `range`.
pub fn choose_best(
    registry: &Registry,
    package: &str,
    range: Option<&str>,
    versions: &Vec<Version>,
    best: Option<Version>,
) -> (r: Result<Version, ResolveError>)
    ensures
        deep_result(r) == best_among(
            registry.deep_view(),
            package@,
            range.deep_view(),
            deep(versions@),
            best.deep_view(),
        ),
{
    if versions.len() == 0 {
        return Err(
            ResolveError::PackageNotInRegistry {
                package: package.to_string(),
                registry_root: registry.root.clone(),
            },
        );
    }
    match best {
        Some(version) => Ok(version),
        None => {
            let range = match range {
                Some(range) => range.to_string(),
                None => "*".to_string(),
            };
            Err(ResolveError::NoMatchingVersion { package: package.to_string(), range })
        },
    }
}

/// The latest version of a package in the range `range`, or of all its releases where there
/// is no range.
pub open spec fn resolved_range(
    root: Seq<char>,
    listing: ListingText,
    package: Seq<char>,
    range: Option<Seq<char>>,
) -> Result<Seq<char>, ResolveFault> {
    if range matches Some(text) && semver_req_fault(text) is Some {
        Err(
            ResolveFault::InvalidVersionReq {
                value: range->0,
                reason: semver_req_fault(range->0)->0,
            },
        )
    } else {
        match available(listing) {
            Err(fault) => Err(fault),
            Ok(versions) => best_among(root, package, range, versions, latest(wanted(range), versions)),
        }
    }
}

/// The latest version of a package in the range `range`, or of all its releases where there
/// is no range.
pub fn resolve_range(
    registry: &Registry,
    listing: Listing,
    package: &str,
    range: Option<&str>,
) -> (r: Result<Version, ResolveError>)
    ensures
        deep_result(r) == resolved_range(
            registry.deep_view(),
            listing.deep_view(),
            package@,
            range.deep_view(),
        ),
        r matches Ok(version) ==> is_latest(
            wanted(range.deep_view()),
            available(listing.deep_view())->Ok_0,
            version.deep_view(),
        ),
        range is None ==> (r matches Ok(version) ==> is_release(version.deep_view())),
{
    let req = match range {
        Some(text) => match Requirement::parse(text) {
            Ok(req) => req,
            Err(reason) => {
                return Err(ResolveError::InvalidVersionReq { value: text.to_string(), reason });
            },
        },
        None => Requirement::any(),
    };
    let versions = match registry.available_versions(listing) {
        Ok(versions) => versions,
        Err(e) => {
            return Err(e);
        },
    };
    let best = latest_matching(&req, &versions);
    choose_best(registry, package, range, &versions, best)
}

// Adding and updating -----------------------------------------------------

/// A version to fetch, and the project manifest to write once that is done.
pub struct Addition {
    pub version: Version,
    pub manifest: ProjectManifest,
}

/// What an addition says.
#[verifier::ext_equal]
pub struct AdditionText {
    pub version: Seq<char>,
    pub manifest: Map<Seq<char>, DependencyText>,
}

impl DeepView for Addition {
    type V = AdditionText;

    open spec fn deep_view(&self) -> AdditionText {
        AdditionText { version: self.version.deep_view(), manifest: self.manifest.deep_view() }
    }
}

/// The range that a manifest has for a package.
pub open spec fn existing_range(
    manifest: Map<Seq<char>, DependencyText>,
    package: Seq<char>,
) -> Option<Seq<char>> {
    if manifest.contains_key(package) {
        match manifest[package] {
            DependencyText::Range(range) => Some(range),
            DependencyText::Git(_) => None,
        }
    } else {
        None
    }
}

/// What `laplace add <pkg>@<version>` decides: the version must be one, and in the registry,
/// and the manifest's entry becomes `^<version>`.
pub open spec fn pinned_addition(
    manifest: Map<Seq<char>, DependencyText>,
    root: Seq<char>,
    listing: ListingText,
    package: Seq<char>,
    version: Seq<char>,
) -> Result<AdditionText, ResolveFault> {
    match semver_fault(version) {
        Some(reason) => Err(ResolveFault::InvalidVersion { value: version, reason }),
        None => match available(listing) {
            Err(fault) => Err(fault),
            Ok(versions) => match pinned_among(root, package, version, versions) {
                Err(fault) => Err(fault),
                Ok(version) => Ok(
                    AdditionText {
                        version,
                        manifest: manifest.insert(
                            package,
                            DependencyText::Range(caret_range(version)),
                        ),
                    },
                ),
            },
        },
    }
}

/// What `laplace add <pkg>` decides: the latest version in the range that the manifest has,
/// which stays as it is; a package new to the manifest gets its latest release, and the
/// entry `^<version>`.
pub open spec fn latest_addition(
    manifest: Map<Seq<char>, DependencyText>,
    root: Seq<char>,
    listing: ListingText,
    package: Seq<char>,
) -> Result<AdditionText, ResolveFault> {
    if manifest.contains_key(package) && manifest[package] is Git {
        Err(ResolveFault::NotARegistryDependency { package })
    } else {
        match resolved_range(root, listing, package, existing_range(manifest, package)) {
            Err(fault) => Err(fault),
            Ok(version) => Ok(
                AdditionText {
                    version,
                    manifest: if manifest.contains_key(package) {
                        manifest
                    } else {
                        manifest.insert(package, DependencyText::Range(caret_range(version)))
                    },
                },
            ),
        }
    }
}

/// `laplace add <pkg>[@version]`.
///
/// - With an explicit `@version`: that exact version must exist in the registry, and
///   `laplace.toml`'s range for `pkg` is (re)written to `^<version>`.
/// - Without a version: reuses `pkg`'s existing range in `laplace.toml` if there is one,
///   resolving to the latest version satisfying it; if `pkg` is new to the manifest, picks
///   the latest release available and writes `^<version>` as its range.
///
/// Either way, resolves to exactly one version. `listing` is what listing the package's
/// folder in the registry gave.
pub fn add(
    project_manifest: ProjectManifest,
    registry: &Registry,
    listing: Listing,
    package: &str,
    pinned_version: Option<&str>,
) -> (r: Result<Addition, ResolveError>)
    ensures
        deep_result(r) == match pinned_version {
            Some(version) => pinned_addition(
                project_manifest.deep_view(),
                registry.deep_view(),
                listing.deep_view(),
                package@,
                version@,
            ),
            None => latest_addition(
                project_manifest.deep_view(),
                registry.deep_view(),
                listing.deep_view(),
                package@,
            ),
        },
        pinned_version is None ==> (r matches Ok(added) ==> is_latest(
            wanted(existing_range(project_manifest.deep_view(), package@)),
            available(listing.deep_view())->Ok_0,
            added.version.deep_view(),
        )),
        pinned_version is None && !project_manifest.deep_view().contains_key(package@) ==> (
        r matches Ok(added) ==> is_release(added.version.deep_view())),
{
    let mut manifest = project_manifest;
    match pinned_version {
        Some(raw) => {
            let version = match Version::parse(raw) {
                Ok(version) => version,
                Err(reason) => {
                    return Err(ResolveError::InvalidVersion { value: raw.to_string(), reason });
                },
            };
            let versions = match registry.available_versions(listing) {
                Ok(versions) => versions,
                Err(e) => {
                    return Err(e);
                },
            };
            let version = match choose_pinned(registry, package, version, &versions) {
                Ok(version) => version,
                Err(e) => {
                    return Err(e);
                },
            };
            manifest.dependencies.insert(
                package.to_string(),
                Dependency::Range(concat2("^", version.as_str())),
            );
            Ok(Addition { version, manifest })
        },
        None => {
            let (known, range): (bool, Option<String>) = match manifest.dependencies.get(package) {
                Some(Dependency::Range(range)) => (true, Some(range.clone())),
                Some(Dependency::Git(_)) => {
                    return Err(
                        ResolveError::NotARegistryDependency { package: package.to_string() },
                    );
                },
                None => (false, None),
            };
            let range_text = match &range {
                Some(range) => Some(range.as_str()),
                None => None,
            };
            let version = match resolve_range(registry, listing, package, range_text) {
                Ok(version) => version,
                Err(e) => {
                    return Err(e);
                },
            };
            if !known {
                manifest.dependencies.insert(
                    package.to_string(),
                    Dependency::Range(concat2("^", version.as_str())),
                );
            }
            Ok(Addition { version, manifest })
        },
    }
}

/// Where `laplace update` refreshes a package from.
pub enum Refresh {
    /// A version in the registry.
    Version(Version),
    /// A ref of a git repository.
    Git { url: String, git_ref: String },
}

/// What a refresh says.
#[verifier::ext_equal]
pub enum RefreshText {
    Version(Seq<char>),
    Git { url: Seq<char>, git_ref: Seq<char> },
}

impl DeepView for Refresh {
    type V = RefreshText;

    open spec fn deep_view(&self) -> RefreshText {
        match self {
            Refresh::Version(version) => RefreshText::Version(version.deep_view()),
            Refresh::Git { url, git_ref } => RefreshText::Git { url: url@, git_ref: git_ref@ },
        }
    }
}

/// What `laplace update` decides: the latest version in the range that the manifest has, or
/// the ref of the git repository that it names.
pub open spec fn refreshed(
    manifest: Map<Seq<char>, DependencyText>,
    root: Seq<char>,
    listing: ListingText,
    package: Seq<char>,
) -> Result<RefreshText, ResolveFault> {
    if !manifest.contains_key(package) {
        Err(ResolveFault::NotADependency { package })
    } else {
        match manifest[package] {
            DependencyText::Git(dep) => match pinned_ref(dep) {
                Ok(git_ref) => Ok(RefreshText::Git { url: dep.git, git_ref }),
                Err(fault) => Err(ResolveFault::Manifest(fault)),
            },
            DependencyText::Range(range) => match resolved_range(
                root,
                listing,
                package,
                Some(range),
            ) {
                Ok(version) => Ok(RefreshText::Version(version)),
                Err(fault) => Err(fault),
            },
        }
    }
}

/// `laplace update <pkg>`: re-resolve `pkg` against its *existing* entry in `laplace.toml`.
/// For a registry range, picks the latest version that still satisfies it. For a git source,
/// simply names the pinned tag/rev to refetch (useful if a tag moved, or just to refresh the
/// cache). Never creates a new dependency or changes the manifest entry -- `pkg` must already
/// be in `laplace.toml` (use `add` for that).
pub fn update(
    project_manifest: &ProjectManifest,
    registry: &Registry,
    listing: Listing,
    package: &str,
) -> (r: Result<Refresh, ResolveError>)
    ensures
        deep_result(r) == refreshed(
            project_manifest.deep_view(),
            registry.deep_view(),
            listing.deep_view(),
            package@,
        ),
        r matches Ok(Refresh::Version(version)) ==> is_latest(
            wanted(existing_range(project_manifest.deep_view(), package@)),
            available(listing.deep_view())->Ok_0,
            version.deep_view(),
        ),
{
    match project_manifest.dependencies.get(package) {
        None => Err(ResolveError::NotADependency { package: package.to_string() }),
        Some(Dependency::Git(dep)) => match dep.git_ref() {
            Ok(git_ref) => Ok(
                Refresh::Git { url: dep.git.clone(), git_ref: git_ref.to_string() },
            ),
            Err(e) => Err(ResolveError::Manifest(e)),
        },
        Some(Dependency::Range(range)) => {
            let text = range.as_str();
            match resolve_range(registry, listing, package, Some(text)) {
                Ok(version) => Ok(Refresh::Version(version)),
                Err(e) => Err(e),
            }
        },
    }
}

/// The git dependency that a url and a tag or a rev make.
pub open spec fn git_text(
    url: Seq<char>,
    tag: Option<Seq<char>>,
    rev: Option<Seq<char>>,
) -> GitText {
    GitText { git: url, tag, rev }
}

/// `laplace add <pkg> --git <url> --tag <tag>` (or `--rev <rev>`): the entry to write into
/// `laplace.toml` in the git table form once the package is fetched, and the ref to fetch.
pub fn add_git(url: &str, tag: Option<&str>, rev: Option<&str>) -> (r: Result<
    (GitDependency, String),
    ResolveError,
>)
    ensures
        match pinned_ref(git_text(url@, tag.deep_view(), rev.deep_view())) {
            Ok(git_ref) => r matches Ok((dep, name)) && dep.deep_view() == git_text(
                url@,
                tag.deep_view(),
                rev.deep_view(),
            ) && name@ == git_ref,
            Err(fault) => r matches Err(e) && e.deep_view() == ResolveFault::Manifest(fault),
        },
{
    let dep = GitDependency {
        git: url.to_string(),
        tag: match tag {
            Some(tag) => Some(tag.to_string()),
            None => None,
        },
        rev: match rev {
            Some(rev) => Some(rev.to_string()),
            None => None,
        },
    };
    assert(dep.deep_view() == git_text(url@, tag.deep_view(), rev.deep_view()));
    let git_ref = match dep.git_ref() {
        Ok(git_ref) => git_ref.to_string(),
        Err(e) => {
            return Err(ResolveError::Manifest(e));
        },
    };
    Ok((dep, git_ref))
}

/// The project manifest to write once a package has been fetched from git: with the git table form
/// as the package's entry, in place of the one that it has, if any.
pub fn record_git(
    project_manifest: ProjectManifest,
    package: &str,
    dependency: GitDependency,
) -> (r: ProjectManifest)
    ensures
        r.deep_view() == project_manifest.deep_view().insert(
            package@,
            DependencyText::Git(dependency.deep_view()),
        ),
{
    let mut manifest = project_manifest;
    manifest.dependencies.insert(package.to_string(), Dependency::Git(dependency));
    manifest
}

// Locking -----------------------------------------------------------------

/// The `source` value recorded in `laplace.lock` for packages resolved from the local
/// filesystem registry.
pub const REGISTRY_SOURCE: &'static str = "registry";

/// What was read of a package directory.
pub struct PackageContents {
    /// The path of its `laplace.toml`.
    pub manifest_path: String,
    /// What reading that gave.
    pub manifest: Result<PackageManifest, ManifestError>,
    /// What reading all its files gave.
    pub files: Result<Vec<PackageFile>, ResolveError>,
}

/// What the contents of a package directory say.
#[verifier::ext_equal]
pub struct ContentsText {
    pub manifest_path: Seq<char>,
    pub manifest: Result<PackageText, ManifestFault>,
    pub files: Result<Seq<FileContents>, ResolveFault>,
}

/// What was read of a package's files, by what they hold.
pub open spec fn deep_files(files: Result<Vec<PackageFile>, ResolveError>) -> Result<
    Seq<FileContents>,
    ResolveFault,
> {
    match files {
        Ok(files) => Ok(deep(files@)),
        Err(e) => Err(e.deep_view()),
    }
}

impl DeepView for PackageContents {
    type V = ContentsText;

    open spec fn deep_view(&self) -> ContentsText {
        ContentsText {
            manifest_path: self.manifest_path@,
            manifest: deep_result(self.manifest),
            files: deep_files(self.files),
        }
    }
}

/// The version that a package's own manifest declares, and the checksum of its directory,
/// where the manifest declares the package's name.
pub open spec fn verified_contents(package: Seq<char>, contents: ContentsText) -> Result<
    (Seq<char>, Seq<char>),
    ResolveFault,
> {
    match contents.manifest {
        Err(fault) => Err(ResolveFault::Manifest(fault)),
        Ok(manifest) => if manifest.name != package {
            Err(
                ResolveFault::PackageNameMismatch {
                    path: contents.manifest_path,
                    expected: package,
                    found: manifest.name,
                },
            )
        } else {
            match contents.files {
                Err(fault) => Err(fault),
                Ok(files) => Ok((manifest.version, checksum_of(files))),
            }
        },
    }
}

/// The version that a package's own manifest declares, and the checksum of its directory.
fn verify_contents(package: &str, contents: PackageContents) -> (r: Result<
    (String, String),
    ResolveError,
>)
    ensures
        deep_result(r) == verified_contents(package@, contents.deep_view()),
{
    let manifest = match contents.manifest {
        Ok(manifest) => manifest,
        Err(e) => {
            return Err(ResolveError::Manifest(e));
        },
    };
    if !same(manifest.name.as_str(), package) {
        return Err(
            ResolveError::PackageNameMismatch {
                path: contents.manifest_path,
                expected: package.to_string(),
                found: manifest.name,
            },
        );
    }
    match contents.files {
        Ok(files) => Ok((manifest.version, checksum_files(files))),
        Err(e) => Err(e),
    }
}

/// The pin of a version from the registry.
pub open spec fn registry_pin(
    package: Seq<char>,
    version: Seq<char>,
    contents: ContentsText,
) -> Result<Pin, ResolveFault> {
    match verified_contents(package, contents) {
        Err(fault) => Err(fault),
        Ok((_, checksum)) => Ok(
            Pin { name: package, version, checksum, source: REGISTRY_SOURCE@ },
        ),
    }
}

/// The pin of a package fetched from a git repository.
pub open spec fn git_pin(
    package: Seq<char>,
    url: Seq<char>,
    git_ref: Seq<char>,
    contents: ContentsText,
) -> Result<Pin, ResolveFault> {
    match verified_contents(package, contents) {
        Err(fault) => Err(fault),
        Ok((version, checksum)) => Ok(
            Pin { name: package, version, checksum, source: git_source_text(url, git_ref) },
        ),
    }
}

/// Shared tail of `add`/`update`: verify that the resolved version's package manifest
/// actually declares this name, hash its contents, and pin it. `contents` is what was read of
/// the version's folder in the registry.
pub fn fetch_and_lock(package: &str, version: &Version, contents: PackageContents) -> (r: Result<
    LockedPackage,
    ResolveError,
>)
    ensures
        deep_result(r) == registry_pin(package@, version.deep_view(), contents.deep_view()),
{
    match verify_contents(package, contents) {
        Ok((_, checksum)) => Ok(
            LockedPackage {
                name: package.to_string(),
                version: version.as_str().to_string(),
                checksum,
                source: REGISTRY_SOURCE.to_string(),
            },
        ),
        Err(e) => Err(e),
    }
}

/// Verify that a package fetched from `url` at `git_ref` declares this name, hash it, and pin
/// it. Shared by `add_git` and `update` (for existing git dependencies).
pub fn refresh_git(package: &str, url: &str, git_ref: &str, contents: PackageContents) -> (r:
    Result<LockedPackage, ResolveError>)
    ensures
        deep_result(r) == git_pin(package@, url@, git_ref@, contents.deep_view()),
{
    match verify_contents(package, contents) {
        Ok((version, checksum)) => Ok(
            LockedPackage {
                name: package.to_string(),
                version,
                checksum,
                source: git_source(url, git_ref),
            },
        ),
        Err(e) => Err(e),
    }
}

// Installing --------------------------------------------------------------

/// Where `laplace install` restores a pinned package from.
pub enum InstallSource {
    /// A folder of the registry, by its parts below the registry's root.
    Registry { dir: Vec<String> },
    /// A ref of a git repository.
    Git { url: String, git_ref: String },
}

/// What an install source says.
#[verifier::ext_equal]
pub enum InstallText {
    Registry { dir: Seq<Seq<char>> },
    Git { url: Seq<char>, git_ref: Seq<char> },
}

impl DeepView for InstallSource {
    type V = InstallText;

    open spec fn deep_view(&self) -> InstallText {
        match self {
            InstallSource::Registry { dir } => InstallText::Registry { dir: deep(dir@) },
            InstallSource::Git { url, git_ref } => InstallText::Git {
                url: url@,
                git_ref: git_ref@,
            },
        }
    }
}

/// Where a pin is restored from: the repository and ref that its source names, or the folder
/// of its version in the registry.
pub open spec fn pin_source(pin: Pin) -> Result<InstallText, ResolveFault> {
    match git_source_parts(pin.source) {
        Some((url, git_ref)) => Ok(InstallText::Git { url, git_ref }),
        None => if pin.source != REGISTRY_SOURCE@ {
            Err(
                ResolveFault::UnknownSource {
                    name: pin.name,
                    version: pin.version,
                    pkg_source: pin.source,
                },
            )
        } else {
            match semver_fault(pin.version) {
                Some(reason) => Err(ResolveFault::InvalidVersion { value: pin.version, reason }),
                None => Ok(InstallText::Registry { dir: seq![pin.name, pin.version] }),
            }
        },
    }
}

/// `laplace install`, for one pin of `laplace.lock` -- never reads `laplace.toml`: where to
/// restore the package from. Registry-sourced packages are restored from the registry copy on
/// disk; git-sourced packages are refetched from their recorded `source` (so a fresh machine
/// with no registry can still restore them).
pub fn install(pkg: &LockedPackage) -> (r: Result<InstallSource, ResolveError>)
    ensures
        deep_result(r) == pin_source(pkg.deep_view()),
{
    if let Some((url, git_ref)) = parse_git_source(pkg.source.as_str()) {
        return Ok(InstallSource::Git { url, git_ref });
    }
    if !same(pkg.source.as_str(), REGISTRY_SOURCE) {
        return Err(
            ResolveError::UnknownSource {
                name: pkg.name.clone(),
                version: pkg.version.clone(),
                pkg_source: pkg.source.clone(),
            },
        );
    }
    match Version::parse(pkg.version.as_str()) {
        Ok(version) => Ok(
            InstallSource::Registry { dir: two_parts(pkg.name.as_str(), version.as_str()) },
        ),
        Err(reason) => Err(
            ResolveError::InvalidVersion { value: pkg.version.clone(), reason },
        ),
    }
}

/// What comes of holding a pin against the files that were fetched for it: the fault that
/// they cannot be read, or that they are not those that were pinned.
pub open spec fn checksum_fault(pin: Pin, files: Result<Seq<FileContents>, ResolveFault>) -> Option<
    ResolveFault,
> {
    match files {
        Err(fault) => Some(fault),
        Ok(files) => mismatch_fault(pin, checksum_of(files)),
    }
}

/// What comes of holding a pin against the registry: also the fault that its version has no
/// folder there.
pub open spec fn registry_copy_fault(
    root: Seq<char>,
    pin: Pin,
    files: Option<Result<Seq<FileContents>, ResolveFault>>,
) -> Option<ResolveFault> {
    match files {
        None => Some(
            ResolveFault::LockedVersionNotInRegistry {
                name: pin.name,
                version: pin.version,
                registry_root: root,
            },
        ),
        Some(files) => checksum_fault(pin, files),
    }
}

/// The fault, if any, that files with the checksum `actual` are not those that were pinned.
pub open spec fn mismatch_fault(pin: Pin, actual: Seq<char>) -> Option<ResolveFault> {
    if actual != pin.checksum {
        Some(
            ResolveFault::ChecksumMismatch {
                name: pin.name,
                version: pin.version,
                expected: pin.checksum,
                actual,
            },
        )
    } else {
        None
    }
}

/// Hold the checksum of the files fetched for a pin against it.
pub fn accept_checksum(pkg: &LockedPackage, actual: String) -> (r: Result<(), ResolveError>)
    ensures
        match r {
            Ok(()) => mismatch_fault(pkg.deep_view(), actual@) is None,
            Err(e) => mismatch_fault(pkg.deep_view(), actual@) == Some(e.deep_view()),
        },
{
    if !same(actual.as_str(), pkg.checksum.as_str()) {
        return Err(
            ResolveError::ChecksumMismatch {
                name: pkg.name.clone(),
                version: pkg.version.clone(),
                expected: pkg.checksum.clone(),
                actual,
            },
        );
    }
    Ok(())
}

/// Verify the files fetched for a pin against it, before they are installed into the cache.
pub fn verify_checksum(pkg: &LockedPackage, files: Result<Vec<PackageFile>, ResolveError>) -> (r:
    Result<(), ResolveError>)
    ensures
        match r {
            Ok(()) => checksum_fault(pkg.deep_view(), deep_files(files)) is None,
            Err(e) => checksum_fault(pkg.deep_view(), deep_files(files)) == Some(e.deep_view()),
        },
{
    match files {
        Ok(files) => accept_checksum(pkg, checksum_files(files)),
        Err(e) => Err(e),
    }
}

/// Verify the registry's copy of a pinned package, before it is installed into the cache.
/// `files` is what reading its folder gave: none where there is no such folder.
pub fn verify_registry_copy(
    registry: &Registry,
    pkg: &LockedPackage,
    files: Option<Result<Vec<PackageFile>, ResolveError>>,
) -> (r: Result<(), ResolveError>)
    ensures
        ({
            let seen = match files {
                Some(files) => Some(deep_files(files)),
                None => None,
            };
            match r {
                Ok(()) => registry_copy_fault(registry.deep_view(), pkg.deep_view(), seen) is None,
                Err(e) => registry_copy_fault(registry.deep_view(), pkg.deep_view(), seen) == Some(
                    e.deep_view(),
                ),
            }
        }),
{
    match files {
        Some(files) => verify_checksum(pkg, files),
        None => Err(
            ResolveError::LockedVersionNotInRegistry {
                name: pkg.name.clone(),
                version: pkg.version.clone(),
                registry_root: registry.root.clone(),
            },
        ),
    }
}

} // verus!
