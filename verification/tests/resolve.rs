use laplace::manifest::{
    Dependency, GitDependency, ManifestError, PackageManifest, ProjectManifest,
};
use laplace::resolve::checksum::{checksum_files, PackageFile};
use laplace::resolve::error::ResolveError;
use laplace::resolve::git::git_source;
use laplace::resolve::installing::{
    continue_install, start_install, InstallEvent, InstallStep,
};
use laplace::resolve::lockfile::{LockedPackage, Lockfile};
use laplace::resolve::version::{latest_matching, versions_of, Requirement, Version};
use laplace::resolve::{
    accept_checksum, add, add_git, choose_best, choose_pinned, fetch_and_lock, install,
    record_git, refresh_git, resolve_range, update, verify_checksum, verify_registry_copy,
    InstallSource,
    Listing, PackageContents, Refresh, Registry,
};

const REGISTRY_SOURCE: &str = "registry";

/// What lies in a registry, and a project that resolves against it.
struct Fixture {
    registry: Registry,
    /// `(package, version, declared name)` of each folder.
    folders: Vec<(String, String, String)>,
    manifest: ProjectManifest,
    lock: Lockfile,
}

fn fixture() -> Fixture {
    Fixture {
        registry: Registry::new("/registry".to_string()),
        folders: Vec::new(),
        manifest: ProjectManifest::default(),
        lock: Lockfile::default(),
    }
}

fn package_manifest(name: &str, version: &str) -> PackageManifest {
    PackageManifest {
        name: name.to_string(),
        version: version.to_string(),
        exports: vec!["rbf_cov".to_string()],
    }
}

fn package_files(name: &str, version: &str) -> Vec<PackageFile> {
    vec![
        PackageFile {
            path: vec!["laplace.toml".to_string()],
            contents: format!("name = \"{name}\"\nversion = \"{version}\"\n").into_bytes(),
        },
        PackageFile {
            path: vec![format!("{name}.stan")],
            contents: b"real rbf_cov() {\n  return 1;\n}\n".to_vec(),
        },
    ]
}

impl Fixture {
    fn write_package(&mut self, name: &str, version: &str) {
        self.folders.push((name.to_string(), version.to_string(), name.to_string()));
    }

    fn listing(&self, name: &str) -> Listing {
        let versions: Vec<String> = self
            .folders
            .iter()
            .filter(|(n, _, _)| n == name)
            .map(|(_, v, _)| v.clone())
            .collect();
        if versions.is_empty() {
            Listing::Missing
        } else {
            Listing::Entries(versions)
        }
    }

    fn contents(&self, name: &str, version: &Version) -> PackageContents {
        let dir = self.registry.package_dir(name, version).join("/");
        let declared = self
            .folders
            .iter()
            .find(|(n, v, _)| n == name && v == version.as_str())
            .map(|(_, _, d)| d.clone())
            .unwrap();
        PackageContents {
            manifest_path: format!("/registry/{dir}/laplace.toml"),
            manifest: Ok(package_manifest(&declared, version.as_str())),
            files: Ok(package_files(name, version.as_str())),
        }
    }

    fn add(&mut self, package: &str, pinned: Option<&str>) -> Result<LockedPackage, ResolveError> {
        let addition = add(
            self.manifest.clone(),
            &self.registry,
            self.listing(package),
            package,
            pinned,
        )?;
        let contents = self.contents(package, &addition.version);
        let locked = fetch_and_lock(package, &addition.version, contents)?;
        self.lock.record(locked.clone());
        self.manifest = addition.manifest;
        Ok(locked)
    }

    fn update(&mut self, package: &str) -> Result<LockedPackage, ResolveError> {
        let locked = match update(&self.manifest, &self.registry, self.listing(package), package)? {
            Refresh::Version(version) => {
                fetch_and_lock(package, &version, self.contents(package, &version))?
            }
            Refresh::Git { url, git_ref } => {
                refresh_git(package, &url, &git_ref, git_contents(package, "1.0.0"))?
            }
        };
        self.lock.record(locked.clone());
        Ok(locked)
    }

    fn install(&self) -> Result<Vec<LockedPackage>, ResolveError> {
        for pkg in &self.lock.packages {
            match install(pkg)? {
                InstallSource::Git { .. } => {
                    verify_checksum(pkg, Ok(package_files(&pkg.name, &pkg.version)))?
                }
                InstallSource::Registry { dir } => {
                    let found = self.folders.iter().any(|(n, v, _)| {
                        dir == self.registry.package_dir(n, &Version::parse(v).unwrap())
                    });
                    let files = if found {
                        Some(Ok(package_files(&pkg.name, &pkg.version)))
                    } else {
                        None
                    };
                    verify_registry_copy(&self.registry, pkg, files)?
                }
            }
        }
        Ok(self.lock.packages.clone())
    }
}

fn git_contents(name: &str, version: &str) -> PackageContents {
    PackageContents {
        manifest_path: "/tmp/scratch/laplace.toml".to_string(),
        manifest: Ok(package_manifest(name, version)),
        files: Ok(package_files(name, version)),
    }
}

fn registry_pin(name: &str, version: &str, checksum: &str) -> LockedPackage {
    LockedPackage {
        name: name.to_string(),
        version: version.to_string(),
        checksum: checksum.to_string(),
        source: REGISTRY_SOURCE.to_string(),
    }
}

#[test]
fn available_versions_ignores_non_semver_dirs_and_missing_packages() {
    let mut f = fixture();
    assert_eq!(f.registry.available_versions(f.listing("gps")).unwrap(), Vec::new());

    f.write_package("gps", "1.0.0");
    f.write_package("gps", "not-a-version");

    let versions = f.registry.available_versions(f.listing("gps")).unwrap();
    assert_eq!(versions, vec![Version::parse("1.0.0").unwrap()]);
}

#[test]
fn an_unreadable_registry_is_an_error() {
    let f = fixture();
    let failed = Listing::Failed {
        path: "/registry/gps".to_string(),
        reason: "denied".to_string(),
    };
    let err = f.registry.available_versions(failed).unwrap_err();
    assert_eq!(
        err,
        ResolveError::Io { path: "/registry/gps".to_string(), reason: "denied".to_string() }
    );
    assert_eq!(err.message(), "failed to access /registry/gps: denied");
}

#[test]
fn add_with_no_range_picks_latest_and_writes_caret_range() {
    let mut f = fixture();
    f.write_package("gps", "1.0.0");
    f.write_package("gps", "1.2.0");

    let locked = f.add("gps", None).unwrap();

    assert_eq!(locked.name, "gps");
    assert_eq!(locked.version, "1.2.0");
    assert_eq!(f.manifest.dependencies.get("gps").unwrap().as_range(), Some("^1.2.0"));
    assert_eq!(f.lock.packages, vec![locked.clone()]);
}

#[test]
fn add_reuses_existing_range_and_respects_it() {
    let mut f = fixture();
    f.write_package("gps", "1.0.0");
    f.write_package("gps", "2.0.0");
    f.manifest
        .dependencies
        .insert("gps".to_string(), Dependency::Range("^1.0".to_string()));

    let locked = f.add("gps", None).unwrap();

    // ^1.0 must not pick the incompatible 2.0.0.
    assert_eq!(locked.version, "1.0.0");
    assert_eq!(f.manifest.dependencies.get("gps").unwrap().as_range(), Some("^1.0"));
}

#[test]
fn add_with_explicit_version_pins_exactly_that_version() {
    let mut f = fixture();
    f.write_package("gps", "1.0.0");
    f.write_package("gps", "1.2.0");

    let locked = f.add("gps", Some("1.0.0")).unwrap();

    assert_eq!(locked.version, "1.0.0");
    assert_eq!(f.manifest.dependencies.get("gps").unwrap().as_range(), Some("^1.0.0"));
}

#[test]
fn add_with_unavailable_pinned_version_errors() {
    let mut f = fixture();
    f.write_package("gps", "1.0.0");

    let err = f.add("gps", Some("9.9.9")).unwrap_err();

    assert!(matches!(err, ResolveError::PinnedVersionNotAvailable { .. }));
    assert_eq!(err.message(), "`gps@9.9.9` is not available in the registry");
}

#[test]
fn add_errors_when_package_absent_from_registry() {
    let mut f = fixture();
    let err = f.add("nonexistent", None).unwrap_err();
    assert!(matches!(err, ResolveError::PackageNotInRegistry { .. }));
    assert_eq!(err.message(), "package `nonexistent` was not found in the registry at /registry");
    let err = f.add("nonexistent", Some("1.0.0")).unwrap_err();
    assert!(matches!(err, ResolveError::PackageNotInRegistry { .. }));
}

#[test]
fn add_errors_on_package_name_mismatch() {
    let mut f = fixture();
    f.folders.push(("gps".to_string(), "1.0.0".to_string(), "not-gps".to_string()));

    let err = f.add("gps", None).unwrap_err();
    assert!(matches!(err, ResolveError::PackageNameMismatch { .. }));
    assert_eq!(
        err.message(),
        "registry package at /registry/gps/1.0.0/laplace.toml declares name `not-gps`, \
         expected `gps`"
    );
    assert!(f.lock.packages.is_empty());
}

#[test]
fn add_refuses_what_is_no_version_or_range() {
    let mut f = fixture();
    f.write_package("gps", "1.0.0");
    let err = f.add("gps", Some("1.q.0")).unwrap_err();
    assert_eq!(
        err.message(),
        "`1.q.0` is not a valid version: unexpected character 'q' while parsing minor version \
         number"
    );

    f.manifest
        .dependencies
        .insert("gps".to_string(), Dependency::Range("one".to_string()));
    let err = f.add("gps", None).unwrap_err();
    assert!(matches!(err, ResolveError::InvalidVersionReq { .. }));
    assert_eq!(f.update("gps").unwrap_err(), err);
}

#[test]
fn add_without_a_version_leaves_git_dependencies_alone() {
    let mut f = fixture();
    f.write_package("gps", "1.0.0");
    f.manifest.dependencies.insert(
        "gps".to_string(),
        Dependency::Git(GitDependency {
            git: "u".to_string(),
            tag: Some("0.1.0".to_string()),
            rev: None,
        }),
    );
    let err = f.add("gps", None).unwrap_err();
    assert_eq!(
        err.message(),
        "`gps` is a git dependency in laplace.toml -- use `laplace update gps` to refresh it, \
         not `laplace add gps`"
    );
    // A version replaces the entry.
    f.add("gps", Some("1.0.0")).unwrap();
    assert_eq!(f.manifest.dependencies.get("gps").unwrap().as_range(), Some("^1.0.0"));
}

#[test]
fn nothing_in_range_is_an_error() {
    let mut f = fixture();
    f.write_package("gps", "1.0.0");
    f.manifest
        .dependencies
        .insert("gps".to_string(), Dependency::Range("^2.0".to_string()));
    let err = f.add("gps", None).unwrap_err();
    assert_eq!(err.message(), "no version of `gps` in the registry satisfies `^2.0`");

    let mut g = fixture();
    g.write_package("gps", "1.0.0-alpha");
    let err = g.add("gps", None).unwrap_err();
    assert_eq!(err.message(), "no version of `gps` in the registry satisfies `*`");
}

#[test]
fn add_keeps_the_other_dependencies() {
    let mut f = fixture();
    f.write_package("gps", "1.0.0");
    f.manifest
        .dependencies
        .insert("splines".to_string(), Dependency::Range("^0.3".to_string()));
    f.add("gps", None).unwrap();
    assert_eq!(f.manifest.dependencies.get("splines").unwrap().as_range(), Some("^0.3"));
    assert_eq!(f.manifest.dependencies.entries().len(), 2);
}

#[test]
fn fresh_install_from_a_lock_restores_into_cache() {
    let mut f = fixture();
    f.write_package("gps", "1.0.0");
    let checksum = checksum_files(package_files("gps", "1.0.0"));
    f.lock.packages.push(registry_pin("gps", "1.0.0", &checksum));

    let installed = f.install().unwrap();
    assert_eq!(installed.len(), 1);
}

#[test]
fn install_does_not_consult_project_manifest_ranges() {
    // A laplace.toml with a range that would exclude 1.0.0: install -- driven only by the
    // lock -- ignores it.
    let mut f = fixture();
    f.write_package("gps", "1.0.0");
    let checksum = checksum_files(package_files("gps", "1.0.0"));
    f.manifest
        .dependencies
        .insert("gps".to_string(), Dependency::Range("^2.0".to_string()));
    f.lock.packages.push(registry_pin("gps", "1.0.0", &checksum));

    let installed = f.install().unwrap();
    assert_eq!(installed[0].version, "1.0.0");
}

#[test]
fn checksum_mismatch_errors() {
    let mut f = fixture();
    f.write_package("gps", "1.0.0");
    let zeros = "sha256:0000000000000000000000000000000000000000000000000000000000000000";
    f.lock.packages.push(registry_pin("gps", "1.0.0", zeros));

    let err = f.install().unwrap_err();
    assert!(matches!(err, ResolveError::ChecksumMismatch { .. }));
    let actual = checksum_files(package_files("gps", "1.0.0"));
    assert_eq!(
        err.message(),
        format!(
            "checksum mismatch for `gps@1.0.0`: laplace.lock says {zeros}, registry contents hash \
             to {actual} -- the registry copy has changed since the lock was written"
        )
    );
}

#[test]
fn lock_referencing_package_absent_from_registry_errors_clearly() {
    let mut f = fixture();
    f.lock.packages.push(registry_pin("ghost", "1.0.0", "sha256:doesnotmatter"));

    let err = f.install().unwrap_err();
    match &err {
        ResolveError::LockedVersionNotInRegistry { name, version, .. } => {
            assert_eq!(name, "ghost");
            assert_eq!(version, "1.0.0");
        }
        other => panic!("expected LockedVersionNotInRegistry, got {other:?}"),
    }
    // The error message should clearly name the missing package.
    assert!(err.message().contains("ghost@1.0.0"));
}

#[test]
fn install_refuses_unknown_sources_and_versions() {
    let mut pkg = registry_pin("gps", "1.0.0", "sha256:x");
    pkg.source = "ftp".to_string();
    let err = install(&pkg).err().unwrap();
    assert_eq!(err.message(), "laplace.lock has an unrecognized source `ftp` for `gps@1.0.0`");

    let pkg = registry_pin("gps", "1", "sha256:x");
    let err = install(&pkg).err().unwrap();
    assert!(matches!(err, ResolveError::InvalidVersion { .. }));
}

#[test]
fn checksum_dir_is_deterministic() {
    let a = checksum_files(package_files("gps", "1.0.0"));
    let b = checksum_files(package_files("gps", "1.0.0"));
    assert_eq!(a, b);
    assert!(a.starts_with("sha256:"));
}

#[test]
fn update_picks_latest_version_matching_the_existing_range() {
    let mut f = fixture();
    f.write_package("gps", "1.0.0");
    f.add("gps", None).unwrap();

    // A new compatible version lands in the registry after the initial add.
    f.write_package("gps", "1.1.0");

    let updated = f.update("gps").unwrap();

    assert_eq!(updated.version, "1.1.0");
    // The range itself is untouched by update.
    assert_eq!(f.manifest.dependencies.get("gps").unwrap().as_range(), Some("^1.0.0"));
    assert_eq!(f.lock.packages, vec![updated]);
}

#[test]
fn update_respects_the_range_and_wont_jump_to_an_incompatible_version() {
    let mut f = fixture();
    f.write_package("gps", "1.0.0");
    f.add("gps", None).unwrap();

    f.write_package("gps", "2.0.0");

    let updated = f.update("gps").unwrap();
    assert_eq!(updated.version, "1.0.0");
}

#[test]
fn update_on_a_package_that_was_never_added_errors() {
    let mut f = fixture();
    f.write_package("gps", "1.0.0");

    let err = f.update("gps").unwrap_err();
    assert!(matches!(err, ResolveError::NotADependency { .. }));
    assert_eq!(
        err.message(),
        "`gps` is not a dependency of this project yet -- run `laplace add gps` first"
    );
}

#[test]
fn add_git_with_tag_records_git_source_and_installs() {
    let mut f = fixture();
    let url = "/repos/gps-bare.git";
    let (dep, git_ref) = add_git(url, Some("0.1.0"), None).unwrap();
    assert_eq!(git_ref, "0.1.0");
    let locked = refresh_git("gps", url, &git_ref, git_contents("gps", "1.0.0")).unwrap();

    assert_eq!(locked.name, "gps");
    assert_eq!(locked.version, "1.0.0");
    assert_eq!(locked.source, format!("git+{url}@0.1.0"));

    f.manifest.dependencies.insert("gps".to_string(), Dependency::Git(dep));
    assert_eq!(
        f.manifest.dependencies.get("gps").unwrap(),
        &Dependency::Git(GitDependency {
            git: url.to_string(),
            tag: Some("0.1.0".to_string()),
            rev: None,
        })
    );

    f.lock.record(locked.clone());
    assert_eq!(f.lock.packages, vec![locked]);
}

#[test]
fn add_git_with_rev_records_git_source_and_installs() {
    let url = "/repos/gps-bare.git";
    let rev = "0123456789abcdef0123456789abcdef01234567";
    let (dep, git_ref) = add_git(url, None, Some(rev)).unwrap();
    let locked = refresh_git("gps", url, &git_ref, git_contents("gps", "1.0.0")).unwrap();

    assert_eq!(locked.version, "1.0.0");
    assert_eq!(locked.source, format!("git+{url}@{rev}"));
    assert_eq!(
        dep,
        GitDependency { git: url.to_string(), tag: None, rev: Some(rev.to_string()) }
    );
}

#[test]
fn add_git_needs_exactly_one_ref() {
    assert_eq!(
        add_git("u", None, None).unwrap_err(),
        ResolveError::Manifest(ManifestError::GitRefMissing { git: "u".to_string() })
    );
    assert_eq!(
        add_git("u", Some("t"), Some("r")).unwrap_err().message(),
        "git dependency `u` cannot have both `tag` and `rev` set"
    );
}

#[test]
fn add_git_errors_on_package_name_mismatch() {
    let url = "/repos/not-gps-bare.git";
    let (_, git_ref) = add_git(url, Some("0.1.0"), None).unwrap();
    let err = refresh_git("gps", url, &git_ref, git_contents("not-gps", "1.0.0")).unwrap_err();
    assert!(matches!(err, ResolveError::PackageNameMismatch { .. }));
}

#[test]
fn what_cannot_be_read_is_not_locked() {
    let missing = PackageContents {
        manifest_path: "/registry/gps/1.0.0/laplace.toml".to_string(),
        manifest: Err(ManifestError::Io {
            path: "/registry/gps/1.0.0/laplace.toml".to_string(),
            reason: "not there".to_string(),
        }),
        files: Ok(vec![]),
    };
    let version = Version::parse("1.0.0").unwrap();
    assert_eq!(
        fetch_and_lock("gps", &version, missing).unwrap_err().message(),
        "failed to read /registry/gps/1.0.0/laplace.toml: not there"
    );

    let unreadable = ResolveError::Io { path: "f".to_string(), reason: "denied".to_string() };
    let mut contents = git_contents("gps", "1.0.0");
    contents.files = Err(unreadable);
    assert_eq!(
        refresh_git("gps", "u", "r", contents).unwrap_err().message(),
        "failed to access f: denied"
    );
}

#[test]
fn install_refetches_git_sourced_package_on_a_fresh_machine() {
    let mut f = fixture();
    let url = "git@host:user/gps.git";
    let locked = refresh_git("gps", url, "0.1.0", git_contents("gps", "1.0.0")).unwrap();
    f.lock.record(locked.clone());

    // Nothing in the registry: the lock's source alone says where to fetch from.
    match install(&locked).unwrap() {
        InstallSource::Git { url: from, git_ref } => {
            assert_eq!(from, url);
            assert_eq!(git_ref, "0.1.0");
        }
        InstallSource::Registry { dir } => panic!("unexpected registry folder {dir:?}"),
    }
    assert_eq!(f.install().unwrap(), vec![locked]);
}

#[test]
fn install_detects_checksum_mismatch_for_git_source() {
    let mut f = fixture();
    let mut locked = refresh_git("gps", "u", "0.1.0", git_contents("gps", "1.0.0")).unwrap();
    locked.checksum =
        "sha256:0000000000000000000000000000000000000000000000000000000000000000".to_string();
    f.lock.record(locked);
    let err = f.install().unwrap_err();
    assert!(matches!(err, ResolveError::ChecksumMismatch { .. }));
}

#[test]
fn update_on_a_git_dependency_refetches_from_the_pinned_ref() {
    let mut f = fixture();
    let (dep, _) = add_git("u", Some("0.1.0"), None).unwrap();
    f.manifest.dependencies.insert("gps".to_string(), Dependency::Git(dep));
    let updated = f.update("gps").unwrap();
    assert_eq!(updated.version, "1.0.0");
    assert_eq!(updated.source, git_source("u", "0.1.0"));
}

#[test]
fn versions_are_compared_by_precedence() {
    let names: Vec<String> =
        ["1.9.0", "1.10.0", "1.10.0-rc.1", "x", "1.2", "01.0.0", "1.10.0+b1", "1.10.0+b2", "0.9.9"]
            .iter()
            .map(|n| n.to_string())
            .collect();
    let versions = versions_of(&names);
    let texts: Vec<&str> = versions.iter().map(|v| v.as_str()).collect();
    assert_eq!(
        texts,
        vec!["1.9.0", "1.10.0", "1.10.0-rc.1", "1.10.0+b1", "1.10.0+b2", "0.9.9"]
    );
    let best = |req: &Requirement| latest_matching(req, &versions).map(|v| v.as_str().to_string());
    assert_eq!(best(&Requirement::any()), Some("1.10.0+b2".to_string()));
    assert_eq!(best(&Requirement::parse("<1.10").unwrap()), Some("1.9.0".to_string()));
    assert_eq!(best(&Requirement::parse("~0.9").unwrap()), Some("0.9.9".to_string()));
    assert_eq!(best(&Requirement::parse("^3").unwrap()), None);
    assert!(Requirement::parse("^^1").is_err());
}

#[test]
fn a_requirement_on_nothing_takes_releases_only() {
    let best = |names: &[&str]| {
        let names: Vec<String> = names.iter().map(|n| n.to_string()).collect();
        latest_matching(&Requirement::any(), &versions_of(&names)).map(|v| v.as_str().to_string())
    };
    assert_eq!(best(&["1.0.0", "2.0.0-rc.1"]), Some("1.0.0".to_string()));
    assert_eq!(best(&["1.0.0", "1.0.0+a-b"]), Some("1.0.0+a-b".to_string()));
    assert_eq!(best(&["2.0.0-rc.1", "2.0.0-rc.1+a"]), None);
}

#[test]
fn a_range_resolves_to_the_latest_in_it() {
    let f = fixture();
    let listing = || {
        Listing::Entries(vec!["1.0.0".to_string(), "1.4.2".to_string(), "2.0.0".to_string()])
    };
    let version = resolve_range(&f.registry, listing(), "gps", Some("^1")).unwrap();
    assert_eq!(version.as_str(), "1.4.2");
    let version = resolve_range(&f.registry, listing(), "gps", None).unwrap();
    assert_eq!(version.as_str(), "2.0.0");
}

#[test]
fn the_choice_follows_from_what_was_found() {
    let f = fixture();
    let v = |text: &str| Version::parse(text).unwrap();
    let some = vec![v("1.0.0")];
    assert_eq!(choose_pinned(&f.registry, "gps", v("1.0.0"), &some).unwrap(), v("1.0.0"));
    assert!(matches!(
        choose_pinned(&f.registry, "gps", v("1.0.1"), &some),
        Err(ResolveError::PinnedVersionNotAvailable { .. })
    ));
    assert!(matches!(
        choose_pinned(&f.registry, "gps", v("1.0.0"), &vec![]),
        Err(ResolveError::PackageNotInRegistry { .. })
    ));
    assert_eq!(
        choose_best(&f.registry, "gps", Some("^1"), &some, Some(v("1.0.0"))).unwrap(),
        v("1.0.0")
    );
    assert_eq!(
        choose_best(&f.registry, "gps", Some("^2"), &some, None).unwrap_err(),
        ResolveError::NoMatchingVersion { package: "gps".to_string(), range: "^2".to_string() }
    );
    assert!(matches!(
        choose_best(&f.registry, "gps", None, &vec![], None),
        Err(ResolveError::PackageNotInRegistry { .. })
    ));
}

#[test]
fn a_checksum_is_accepted_only_if_it_is_the_pinned_one() {
    let pkg = registry_pin("gps", "1.0.0", "sha256:aa");
    assert_eq!(accept_checksum(&pkg, "sha256:aa".to_string()), Ok(()));
    assert!(matches!(
        accept_checksum(&pkg, "sha256:ab".to_string()),
        Err(ResolveError::ChecksumMismatch { .. })
    ));
    let unread = ResolveError::Io { path: "p".to_string(), reason: "r".to_string() };
    assert!(matches!(verify_checksum(&pkg, Err(unread)), Err(ResolveError::Io { .. })));
}

#[test]
fn a_fetched_git_package_is_recorded_in_the_manifest() {
    let mut manifest = ProjectManifest::default();
    manifest.dependencies.insert("a".to_string(), Dependency::Range("^1".to_string()));
    manifest.dependencies.insert("gps".to_string(), Dependency::Range("^2".to_string()));
    let (dep, _) = add_git("https://example.com/gps", Some("0.1.0"), None).unwrap();
    let written = record_git(manifest, "gps", dep.clone());
    assert_eq!(written.dependencies.get("gps"), Some(&Dependency::Git(dep)));
    assert_eq!(written.dependencies.get("a"), Some(&Dependency::Range("^1".to_string())));
    assert_eq!(written.dependencies.entries().len(), 2);
    match update(&written, &fixture().registry, Listing::Missing, "gps").unwrap() {
        Refresh::Git { url, git_ref } => {
            assert_eq!((url.as_str(), git_ref.as_str()), ("https://example.com/gps", "0.1.0"));
        }
        Refresh::Version(_) => panic!("expected a git source"),
    }
}

fn walk(
    lock: &Lockfile,
    mut event: impl FnMut(&InstallStep) -> InstallEvent,
) -> (Vec<String>, Option<ResolveError>) {
    let registry = fixture().registry;
    let mut stored = Vec::new();
    let mut step = match start_install(lock) {
        Ok(step) => step,
        Err(e) => return (stored, Some(e)),
    };
    while step != InstallStep::Done {
        let came = event(&step);
        if let InstallStep::Store { dest, .. } = &step {
            stored.push(dest.join("/"));
        }
        step = match continue_install(&registry, lock, step, came) {
            Ok(step) => step,
            Err(e) => return (stored, Some(e)),
        };
    }
    (stored, None)
}

fn walked_lock() -> Lockfile {
    let a = registry_pin("a", "1.0.0", &checksum_files(package_files("a", "1.0.0")));
    let mut b = registry_pin("b", "2.0.0", &checksum_files(package_files("b", "2.0.0")));
    b.source = git_source("https://example.com/b", "v2");
    let c = registry_pin("c", "3.0.0", &checksum_files(package_files("c", "3.0.0")));
    Lockfile { packages: vec![b, a, c] }
}

#[test]
fn install_restores_every_package_in_the_locks_order() {
    let (stored, error) = walk(&walked_lock(), |step| match step {
        InstallStep::ReadRegistry { index: 1, dir } => {
            assert_eq!(dir, &vec!["a", "1.0.0"]);
            InstallEvent::RegistryRead(Some(Ok(package_files("a", "1.0.0"))))
        }
        InstallStep::ReadRegistry { .. } => {
            InstallEvent::RegistryRead(Some(Ok(package_files("c", "3.0.0"))))
        }
        InstallStep::FetchGit { index, url, git_ref } => {
            assert_eq!((*index, url.as_str(), git_ref.as_str()), (0, "https://example.com/b", "v2"));
            InstallEvent::GitRead(Ok(package_files("b", "2.0.0")))
        }
        _ => InstallEvent::Stored(Ok(())),
    });
    assert!(error.is_none());
    assert_eq!(stored, vec!["b/2.0.0", "a/1.0.0", "c/3.0.0"]);
    assert_eq!(start_install(&Lockfile::default()).unwrap(), InstallStep::Done);
}

#[test]
fn install_stops_at_the_first_failure_and_stores_nothing_unverified() {
    let (stored, error) = walk(&walked_lock(), |step| match step {
        InstallStep::FetchGit { .. } => InstallEvent::GitRead(Ok(package_files("b", "2.0.0"))),
        InstallStep::ReadRegistry { .. } => {
            InstallEvent::RegistryRead(Some(Ok(package_files("a", "changed"))))
        }
        _ => InstallEvent::Stored(Ok(())),
    });
    assert_eq!(stored, vec!["b/2.0.0"]);
    assert!(matches!(error, Some(ResolveError::ChecksumMismatch { .. })));

    let (stored, error) = walk(&walked_lock(), |step| match step {
        InstallStep::FetchGit { .. } => InstallEvent::GitRead(Ok(package_files("b", "2.0.0"))),
        InstallStep::ReadRegistry { .. } => InstallEvent::RegistryRead(None),
        _ => InstallEvent::Stored(Ok(())),
    });
    assert_eq!(stored.len(), 1);
    assert!(matches!(error, Some(ResolveError::LockedVersionNotInRegistry { .. })));

    let failure = || ResolveError::Io { path: "/cache".to_string(), reason: "full".to_string() };
    let (_, error) = walk(&walked_lock(), |step| match step {
        InstallStep::FetchGit { .. } => InstallEvent::GitRead(Ok(package_files("b", "2.0.0"))),
        _ => InstallEvent::Stored(Err(failure())),
    });
    assert_eq!(error, Some(failure()));

    let mut lock = walked_lock();
    lock.packages[0].source = "elsewhere".to_string();
    let (stored, error) = walk(&lock, |_| InstallEvent::Stored(Ok(())));
    assert!(stored.is_empty());
    assert!(matches!(error, Some(ResolveError::UnknownSource { .. })));
}

#[test]
fn an_event_of_another_step_changes_nothing() {
    let registry = fixture().registry;
    let lock = walked_lock();
    let step = start_install(&lock).unwrap();
    let same = continue_install(&registry, &lock, step, InstallEvent::Stored(Ok(())));
    assert!(matches!(same, Ok(InstallStep::FetchGit { index: 0, .. })));
}
