use laplace::files::FileOutcome;
use laplace::manifest::{
    read_package_manifest, read_project_manifest, Dependency, GitDependency, ManifestError,
    PackageManifest, ProjectManifest,
};

#[test]
fn missing_project_manifest_reads_as_empty() {
    let outcome = FileOutcome::Missing { reason: "not found".to_string() };
    assert_eq!(
        read_project_manifest("laplace.toml", outcome).unwrap(),
        ProjectManifest::default()
    );
}

#[test]
fn missing_package_manifest_is_an_error() {
    let outcome = FileOutcome::Missing { reason: "not found".to_string() };
    assert_eq!(
        read_package_manifest("laplace.toml", outcome).unwrap_err(),
        ManifestError::Io { path: "laplace.toml".to_string(), reason: "not found".to_string() }
    );
}

#[test]
fn unreadable_and_malformed_manifests_are_errors() {
    let path = || "laplace.toml".to_string();
    let reason = || "r".to_string();
    assert_eq!(
        read_project_manifest("laplace.toml", FileOutcome::Unreadable { reason: reason() }),
        Err(ManifestError::Io { path: path(), reason: reason() })
    );
    assert_eq!(
        read_project_manifest("laplace.toml", FileOutcome::Malformed { reason: reason() }),
        Err(ManifestError::Parse { path: path(), reason: reason() })
    );
    assert_eq!(
        read_package_manifest("laplace.toml", FileOutcome::Unreadable { reason: reason() }),
        Err(ManifestError::Io { path: path(), reason: reason() })
    );
    assert_eq!(
        read_package_manifest("laplace.toml", FileOutcome::Malformed { reason: reason() }),
        Err(ManifestError::Parse { path: path(), reason: reason() })
    );
    let mut manifest = ProjectManifest::default();
    manifest.dependencies.insert("gps".to_string(), Dependency::Range("^1.0".to_string()));
    assert_eq!(
        read_project_manifest("laplace.toml", FileOutcome::Holds(manifest.clone())),
        Ok(manifest)
    );
}

#[test]
fn git_dependency_requires_exactly_one_of_tag_or_rev() {
    let neither = GitDependency {
        git: "https://example.com/repo".to_string(),
        tag: None,
        rev: None,
    };
    assert!(matches!(
        neither.git_ref(),
        Err(ManifestError::GitRefMissing { .. })
    ));

    let both = GitDependency {
        git: "https://example.com/repo".to_string(),
        tag: Some("0.1.0".to_string()),
        rev: Some("abc123".to_string()),
    };
    assert!(matches!(
        both.git_ref(),
        Err(ManifestError::GitRefAmbiguous { .. })
    ));

    let tag_only = GitDependency {
        git: "https://example.com/repo".to_string(),
        tag: Some("0.1.0".to_string()),
        rev: None,
    };
    assert_eq!(tag_only.git_ref().unwrap(), "0.1.0");
}

#[test]
fn a_rev_alone_is_the_ref() {
    let rev_only = GitDependency {
        git: "https://example.com/repo".to_string(),
        tag: None,
        rev: Some("abc123".to_string()),
    };
    assert_eq!(rev_only.git_ref().unwrap(), "abc123");
}

#[test]
fn dependencies_are_kept_by_name() {
    let mut manifest = ProjectManifest::default();
    assert!(manifest.dependencies.entries().is_empty());
    manifest
        .dependencies
        .insert("splines".to_string(), Dependency::Range("^0.3".to_string()));
    manifest
        .dependencies
        .insert("gps".to_string(), Dependency::Range("^1.0".to_string()));
    manifest.dependencies.insert(
        "gps2".to_string(),
        Dependency::Git(GitDependency {
            git: "https://github.com/user/repo".to_string(),
            tag: Some("0.1.0".to_string()),
            rev: None,
        }),
    );
    manifest
        .dependencies
        .insert("gps".to_string(), Dependency::Range("^2.0".to_string()));

    let names: Vec<&str> =
        manifest.dependencies.entries().iter().map(|(name, _)| name.as_str()).collect();
    assert_eq!(names, vec!["gps", "gps2", "splines"]);
    assert_eq!(manifest.dependencies.get("gps").unwrap().as_range(), Some("^2.0"));
    assert_eq!(manifest.dependencies.get("gps2").unwrap().as_range(), None);
    assert_eq!(manifest.dependencies.get("utils"), None);
    assert_eq!(manifest.clone(), manifest);
}

#[test]
fn messages_say_what_is_wrong() {
    let git = "u".to_string();
    assert_eq!(
        ManifestError::GitRefMissing { git: git.clone() }.message(),
        "git dependency `u` needs a `tag` or a `rev`"
    );
    assert_eq!(
        ManifestError::GitRefAmbiguous { git }.message(),
        "git dependency `u` cannot have both `tag` and `rev` set"
    );
    let path = "laplace.toml".to_string();
    let reason = "why".to_string();
    assert_eq!(
        ManifestError::Io { path: path.clone(), reason: reason.clone() }.message(),
        "failed to read laplace.toml: why"
    );
    assert_eq!(
        ManifestError::Parse { path: path.clone(), reason: reason.clone() }.message(),
        "failed to parse laplace.toml: why"
    );
    assert_eq!(
        ManifestError::Serialize { path, reason }.message(),
        "failed to serialize manifest for laplace.toml: why"
    );
}

#[test]
fn a_package_manifest_is_copied_whole() {
    let manifest = PackageManifest {
        name: "gps".to_string(),
        version: "0.1.0".to_string(),
        exports: vec!["rbf_cov".to_string()],
    };
    assert_eq!(manifest.clone(), manifest);
}
