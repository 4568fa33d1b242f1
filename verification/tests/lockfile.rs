use laplace::files::FileOutcome;
use laplace::resolve::lockfile::{read_lockfile, LockedPackage, Lockfile, LockfileError};

#[test]
fn missing_lockfile_reads_as_empty() {
    let outcome = FileOutcome::Missing { reason: "not found".to_string() };
    assert_eq!(read_lockfile("laplace.lock", outcome).unwrap(), Lockfile::default());
}

#[test]
fn malformed_lockfile_is_a_parse_error() {
    let outcome = match toml::from_str::<toml::Table>("this is not valid toml {{{") {
        Ok(_) => FileOutcome::Holds(Lockfile::default()),
        Err(e) => FileOutcome::Malformed { reason: e.to_string() },
    };
    assert!(matches!(
        read_lockfile("laplace.lock", outcome),
        Err(LockfileError::Parse { .. })
    ));
}

#[test]
fn unreadable_lockfile_is_an_error() {
    let outcome = FileOutcome::Unreadable { reason: "denied".to_string() };
    assert_eq!(
        read_lockfile("laplace.lock", outcome).unwrap_err(),
        LockfileError::Io { path: "laplace.lock".to_string(), reason: "denied".to_string() }
    );
}

fn pin(name: &str, version: &str) -> LockedPackage {
    LockedPackage {
        name: name.to_string(),
        version: version.to_string(),
        checksum: format!("sha256:{name}-{version}"),
        source: "registry".to_string(),
    }
}

#[test]
fn write_then_read_round_trips_sorted_by_name() {
    let lock = Lockfile {
        packages: vec![
            LockedPackage {
                name: "zzz".into(),
                version: "1.0.0".into(),
                checksum: "sha256:aaa".into(),
                source: "registry".into(),
            },
            LockedPackage {
                name: "aaa".into(),
                version: "2.0.0".into(),
                checksum: "sha256:bbb".into(),
                source: "registry".into(),
            },
        ],
    };

    let written = lock.sorted();
    assert_eq!(
        written
            .packages
            .iter()
            .map(|p| p.name.as_str())
            .collect::<Vec<_>>(),
        vec!["aaa", "zzz"]
    );
    assert_eq!(written.packages[0].checksum, "sha256:bbb");
}

#[test]
fn recording_replaces_every_pin_of_the_package() {
    let mut lock = Lockfile {
        packages: vec![pin("gps", "1.0.0"), pin("splines", "0.1.0"), pin("gps", "0.9.0")],
    };
    lock.record(pin("gps", "1.1.0"));
    assert_eq!(lock.packages, vec![pin("splines", "0.1.0"), pin("gps", "1.1.0")]);
    assert_eq!(lock.find("gps"), Some(&pin("gps", "1.1.0")));
    assert_eq!(lock.sorted().find("gps"), Some(&pin("gps", "1.1.0")));
    assert_eq!(lock.sorted().find("splines"), Some(&pin("splines", "0.1.0")));
    assert_eq!(lock.find("utils"), None);
}

#[test]
fn sorting_keeps_the_order_of_equal_names() {
    let lock = Lockfile {
        packages: vec![pin("b", "2"), pin("a", "1"), pin("b", "1"), pin("B", "1")],
    };
    assert_eq!(
        lock.sorted().packages,
        vec![pin("B", "1"), pin("a", "1"), pin("b", "2"), pin("b", "1")]
    );
}

#[test]
fn names_are_ordered_by_code_point() {
    let lock = Lockfile {
        packages: vec![pin("\u{10000}", "1"), pin("\u{ffff}", "1"), pin("z", "1"), pin("", "1")],
    };
    let names: Vec<String> = lock.sorted().packages.into_iter().map(|p| p.name).collect();
    let mut expected: Vec<String> = lock.packages.iter().map(|p| p.name.clone()).collect();
    expected.sort();
    assert_eq!(names, expected);
}

#[test]
fn messages_name_the_file() {
    let path = "laplace.lock".to_string();
    let reason = "why".to_string();
    assert_eq!(
        LockfileError::Io { path: path.clone(), reason: reason.clone() }.message(),
        "failed to read laplace.lock: why"
    );
    assert_eq!(
        LockfileError::Parse { path: path.clone(), reason: reason.clone() }.message(),
        "failed to parse laplace.lock: why"
    );
    assert_eq!(
        LockfileError::Serialize { path, reason }.message(),
        "failed to serialize lockfile for laplace.lock: why"
    );
}
