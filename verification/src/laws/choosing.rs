//! Which version `add` and `update` choose, and what they pin.
use vstd::prelude::*;

use crate::laws::texts::lemma_last_found;
use crate::manifest::{pinned_ref, DependencyText, GitText, ManifestFault};
use crate::resolve::{
    available, existing_range, git_pin, git_text, latest_addition, pin_source, pinned_addition,
    refreshed, registry_pin, resolved_range, wanted, AdditionText, ContentsText, InstallText,
    ListingText, RefreshText,
};
use crate::resolve::checksum::checksum_of;
use crate::resolve::error::ResolveFault;
use crate::resolve::git::git_source_parts;
use crate::resolve::lockfile::Pin;
use crate::resolve::version::{
    latest, semver_admits, semver_fault, semver_less, semver_req_fault, versions_among,
};
use crate::text::{find_last, occurs_at};

verus! {

/// `listing` has a folder with the name `version`, and that spells a version.
pub open spec fn lists_version(listing: ListingText, version: Seq<char>) -> bool {
    semver_fault(version) is None && match listing {
        ListingText::Entries(names) => exists|i: int|
            0 <= i < names.len() && #[trigger] names[i] == version,
        _ => false,
    }
}

/// Available are exactly the folders with a name that spells a version, as often and in the order
/// as they are listed; a package without a folder has none, and a folder that cannot be listed is a
/// fault.
pub proof fn law_available_is_what_is_listed(listing: ListingText)
    ensures
        match listing {
            ListingText::Entries(names) => available(listing) == Ok::<Seq<Seq<char>>, ResolveFault>(
                names.filter(|name: Seq<char>| semver_fault(name) is None),
            ),
            ListingText::Missing => available(listing) == Ok::<Seq<Seq<char>>, ResolveFault>(
                Seq::empty(),
            ),
            ListingText::Failed { path, reason } => available(listing) == Err::<
                Seq<Seq<char>>,
                ResolveFault,
            >(ResolveFault::Io { path, reason }),
        },
{
    if let ListingText::Entries(names) = listing {
        lemma_versions_among_filters(names);
    }
}

/// The versions among names are those that spell one.
proof fn lemma_versions_among_filters(names: Seq<Seq<char>>)
    ensures
        versions_among(names) == names.filter(|name: Seq<char>| semver_fault(name) is None),
    decreases names.len(),
{
    reveal(Seq::filter);
    if names.len() > 0 {
        lemma_versions_among_filters(names.drop_last());
    }
}

/// What is available is what is listed.
proof fn lemma_available_contains(listing: ListingText, version: Seq<char>)
    ensures
        (available(listing) matches Ok(versions) && versions.contains(version)) <==> lists_version(
            listing,
            version,
        ),
{
    if let ListingText::Entries(names) = listing {
        lemma_versions_among_contains(names, version);
        assert(names.contains(version) <==> exists|i: int|
            0 <= i < names.len() && #[trigger] names[i] == version);
    }
}

/// A name that spells a version is among those that do.
proof fn lemma_versions_among_contains(names: Seq<Seq<char>>, version: Seq<char>)
    ensures
        versions_among(names).contains(version) <==> names.contains(version) && semver_fault(
            version,
        ) is None,
    decreases names.len(),
{
    if names.len() > 0 {
        let front = names.drop_last();
        let before = versions_among(front);
        let all = versions_among(names);
        lemma_versions_among_contains(front, version);
        assert(names =~= front.push(names.last()));
        lemma_push_contains(front, names.last(), version);
        lemma_push_contains(before, names.last(), version);
    }
}

/// What a sequence with one more at its end contains.
pub proof fn lemma_push_contains<V>(s: Seq<V>, last: V, v: V)
    ensures
        s.push(last).contains(v) <==> s.contains(v) || v == last,
{
    let all = s.push(last);
    if s.contains(v) {
        let i = choose|i: int| 0 <= i < s.len() && s[i] == v;
        assert(all[i] == v);
    }
    assert(all[s.len() as int] == last);
    if all.contains(v) && v != last {
        let i = choose|i: int| 0 <= i < all.len() && all[i] == v;
        assert(s[i] == v);
    }
}

/// `add <pkg>@<version>` succeeds exactly for the versions that the registry has, wherever they are
/// listed, and then gives that version and the entry `^<version>`, with all other entries as they
/// were.
pub proof fn law_every_listed_version_can_be_pinned(
    manifest: Map<Seq<char>, DependencyText>,
    root: Seq<char>,
    listing: ListingText,
    package: Seq<char>,
    version: Seq<char>,
)
    ensures
        pinned_addition(manifest, root, listing, package, version) is Ok <==> lists_version(
            listing,
            version,
        ),
        lists_version(listing, version) ==> pinned_addition(manifest, root, listing, package, version)
            == Ok::<AdditionText, ResolveFault>(
            AdditionText {
                version,
                manifest: manifest.insert(package, DependencyText::Range("^"@ + version)),
            },
        ),
{
    lemma_available_contains(listing, version);
}

/// What `add <pkg>@<version>` says where it fails: that the text spells no version, that the
/// registry cannot be listed, that it has no version of the package at all, or that it has not
/// this one.
pub proof fn law_pinning_fails_for_a_reason(
    manifest: Map<Seq<char>, DependencyText>,
    root: Seq<char>,
    listing: ListingText,
    package: Seq<char>,
    version: Seq<char>,
)
    ensures
        pinned_addition(manifest, root, listing, package, version) matches Err(fault) ==> match fault {
            ResolveFault::InvalidVersion { value, reason } => value == version && semver_fault(
                version,
            ) == Some(reason),
            ResolveFault::Io { path, reason } => listing == (ListingText::Failed { path, reason })
                && semver_fault(version) is None,
            ResolveFault::PackageNotInRegistry { package: p, registry_root } => p == package
                && registry_root == root && !(listing is Failed) && semver_fault(version) is None
                && forall|v: Seq<char>| !#[trigger] lists_version(listing, v),
            ResolveFault::PinnedVersionNotAvailable { package: p, version: v } => p == package && v
                == version && semver_fault(version) is None && !lists_version(listing, version)
                && exists|w: Seq<char>| #[trigger] lists_version(listing, w),
            _ => false,
        },
{
    lemma_available_contains(listing, version);
    if let Ok(versions) = available(listing) {
        assert forall|v: Seq<char>| versions.contains(v) <==> #[trigger] lists_version(
            listing,
            v,
        ) by {
            lemma_available_contains(listing, v);
        }
        if versions.len() > 0 {
            assert(versions.contains(versions[0]));
            assert(lists_version(listing, versions[0]));
        } else {
            assert forall|v: Seq<char>| !#[trigger] lists_version(listing, v) by {
                assert(!versions.contains(v));
            }
        }
    }
}

/// Whether a version can be pinned does not depend on the order in which the folders are listed.
pub proof fn law_pinning_ignores_listing_order(
    manifest: Map<Seq<char>, DependencyText>,
    root: Seq<char>,
    a: Seq<Seq<char>>,
    b: Seq<Seq<char>>,
    package: Seq<char>,
    version: Seq<char>,
)
    requires
        forall|name: Seq<char>| #[trigger] a.contains(name) <==> b.contains(name),
    ensures
        pinned_addition(manifest, root, ListingText::Entries(a), package, version)
            == pinned_addition(manifest, root, ListingText::Entries(b), package, version),
{
    let la = ListingText::Entries(a);
    let lb = ListingText::Entries(b);
    assert forall|v: Seq<char>| #[trigger] lists_version(la, v) <==> lists_version(lb, v) by {
        assert(a.contains(v) <==> b.contains(v));
        if lists_version(la, v) {
            assert(a.contains(v));
            let i = choose|i: int| 0 <= i < b.len() && b[i] == v;
            assert(b[i] == v);
        }
        if lists_version(lb, v) {
            assert(b.contains(v));
            let i = choose|i: int| 0 <= i < a.len() && a[i] == v;
            assert(a[i] == v);
        }
    }
    lemma_available_contains(la, version);
    lemma_available_contains(lb, version);
    let va = available(la)->Ok_0;
    let vb = available(lb)->Ok_0;
    if va.len() > 0 {
        lemma_available_contains(la, va[0]);
        lemma_available_contains(lb, va[0]);
        assert(va.contains(va[0]));
    }
    if vb.len() > 0 {
        lemma_available_contains(la, vb[0]);
        lemma_available_contains(lb, vb[0]);
        assert(vb.contains(vb[0]));
    }
}

/// `add <pkg>` takes the version that the manifest's range or, without one, `*` admits.
pub open spec fn requirement(manifest: Map<Seq<char>, DependencyText>, package: Seq<char>) -> Seq<
    char,
> {
    if manifest.contains_key(package) {
        manifest[package]->Range_0
    } else {
        "*"@
    }
}

/// The latest of some versions is one that the requirement admits, and there is one exactly if the
/// requirement admits any of them.
proof fn lemma_latest_admits(req: Seq<char>, versions: Seq<Seq<char>>)
    ensures
        match latest(req, versions) {
            Some(version) => versions.contains(version) && semver_admits(req, version),
            None => forall|i: int|
                0 <= i < versions.len() ==> !semver_admits(req, #[trigger] versions[i]),
        },
    decreases versions.len(),
{
    if versions.len() > 0 {
        let front = versions.drop_last();
        lemma_latest_admits(req, front);
        assert(versions.contains(versions.last()));
        if let Some(version) = latest(req, front) {
            let i = choose|i: int| 0 <= i < front.len() && front[i] == version;
            assert(versions[i] == version);
        } else {
            assert forall|i: int| 0 <= i < versions.len() - 1 implies !semver_admits(
                req,
                #[trigger] versions[i],
            ) by {
                assert(front[i] == versions[i]);
            }
        }
    }
}

/// `add <pkg>` succeeds exactly if the registry has a version that is admitted, and then chooses
/// such a one; the package has no git entry, and its range, if it has one, can be read.
pub proof fn law_add_finds_an_admitted_version(
    manifest: Map<Seq<char>, DependencyText>,
    root: Seq<char>,
    listing: ListingText,
    package: Seq<char>,
)
    requires
        manifest.contains_key(package) ==> manifest[package] is Range && semver_req_fault(
            manifest[package]->Range_0,
        ) is None,
    ensures
        latest_addition(manifest, root, listing, package) is Ok <==> exists|v: Seq<char>|
            #[trigger] lists_version(listing, v) && semver_admits(requirement(manifest, package), v),
        latest_addition(manifest, root, listing, package) matches Ok(added) ==> lists_version(
            listing,
            added.version,
        ) && semver_admits(requirement(manifest, package), added.version) && added.manifest == (
        if manifest.contains_key(package) {
            manifest
        } else {
            manifest.insert(package, DependencyText::Range("^"@ + added.version))
        }),
{
    lemma_resolved_range(root, listing, package, existing_range(manifest, package));
}

/// A range resolves exactly if one of the listed versions is admitted.
proof fn lemma_resolved_range(
    root: Seq<char>,
    listing: ListingText,
    package: Seq<char>,
    range: Option<Seq<char>>,
)
    requires
        range matches Some(text) ==> semver_req_fault(text) is None,
    ensures
        resolved_range(root, listing, package, range) is Ok <==> exists|v: Seq<char>|
            #[trigger] lists_version(listing, v) && semver_admits(wanted(range), v),
        resolved_range(root, listing, package, range) matches Ok(v) ==> lists_version(listing, v)
            && semver_admits(wanted(range), v),
{
    let req = wanted(range);
    if let Ok(versions) = available(listing) {
        lemma_latest_admits(req, versions);
        assert forall|v: Seq<char>| versions.contains(v) <==> #[trigger] lists_version(
            listing,
            v,
        ) by {
            lemma_available_contains(listing, v);
        }
        if let Some(version) = latest(req, versions) {
            assert(lists_version(listing, version));
        } else {
            assert forall|v: Seq<char>| #[trigger] lists_version(listing, v) implies !semver_admits(
                req,
                v,
            ) by {
                let i = choose|i: int| 0 <= i < versions.len() && versions[i] == v;
                assert(!semver_admits(req, versions[i]));
            }
        }
    } else {
        assert forall|v: Seq<char>| !#[trigger] lists_version(listing, v) by {
            lemma_available_contains(listing, v);
        }
    }
}

/// Of the versions that are admitted the chosen one is the greatest, as long as the order of
/// versions is one: whatever is not less than a greater version is greater itself.
pub proof fn law_chosen_version_is_the_greatest(
    root: Seq<char>,
    listing: ListingText,
    package: Seq<char>,
    range: Option<Seq<char>>,
    other: Seq<char>,
)
    requires
        forall|a: Seq<char>, b: Seq<char>| #[trigger] semver_less(a, b) ==> !semver_less(b, a),
        forall|a: Seq<char>, b: Seq<char>, c: Seq<char>| #[trigger]
            semver_less(a, c) && !#[trigger] semver_less(b, c) ==> semver_less(a, b),
        resolved_range(root, listing, package, range) is Ok,
        lists_version(listing, other),
        semver_admits(wanted(range), other),
    ensures
        !semver_less(resolved_range(root, listing, package, range)->Ok_0, other),
{
    let versions = available(listing)->Ok_0;
    lemma_available_contains(listing, other);
    lemma_latest_is_greatest(wanted(range), versions, other);
}

/// The latest version is not less than any other that is admitted.
proof fn lemma_latest_is_greatest(req: Seq<char>, versions: Seq<Seq<char>>, other: Seq<char>)
    requires
        forall|a: Seq<char>, b: Seq<char>| #[trigger] semver_less(a, b) ==> !semver_less(b, a),
        forall|a: Seq<char>, b: Seq<char>, c: Seq<char>| #[trigger]
            semver_less(a, c) && !#[trigger] semver_less(b, c) ==> semver_less(a, b),
        versions.contains(other),
        semver_admits(req, other),
    ensures
        latest(req, versions) matches Some(best) && !semver_less(best, other),
    decreases versions.len(),
{
    let front = versions.drop_last();
    let next = versions.last();
    let i = choose|i: int| 0 <= i < versions.len() && versions[i] == other;
    if i < versions.len() - 1 {
        assert(front[i] == other);
        lemma_latest_is_greatest(req, front, other);
        let best = latest(req, front)->0;
        if semver_admits(req, next) && !semver_less(next, best) {
            if semver_less(next, other) {
                assert(semver_less(next, other) && !semver_less(best, other));
            }
        }
    } else {
        assert(next == other);
        if semver_less(other, other) {
        }
    }
}

/// What `add <pkg>` says where it fails: that the package is a git dependency, that its range
/// cannot be read, that the registry cannot be listed, that it has no version of the package at
/// all, or none that is admitted.
pub proof fn law_adding_fails_for_a_reason(
    manifest: Map<Seq<char>, DependencyText>,
    root: Seq<char>,
    listing: ListingText,
    package: Seq<char>,
)
    ensures
        latest_addition(manifest, root, listing, package) matches Err(fault) ==> match fault {
            ResolveFault::NotARegistryDependency { package: p } => p == package
                && manifest.contains_key(package) && manifest[package] is Git,
            ResolveFault::InvalidVersionReq { value, reason } => manifest.contains_key(package)
                && manifest[package] == DependencyText::Range(value) && semver_req_fault(value)
                == Some(reason),
            ResolveFault::Io { path, reason } => listing == (ListingText::Failed { path, reason }),
            ResolveFault::PackageNotInRegistry { package: p, registry_root } => p == package
                && registry_root == root && !(listing is Failed) && forall|v: Seq<char>|
                !#[trigger] lists_version(listing, v),
            ResolveFault::NoMatchingVersion { package: p, range } => p == package && range
                == requirement(manifest, package) && (exists|w: Seq<char>| #[trigger]
                lists_version(listing, w)) && forall|v: Seq<char>| #[trigger]
                lists_version(listing, v) ==> !semver_admits(range, v),
            _ => false,
        },
{
    if let Ok(versions) = available(listing) {
        assert forall|v: Seq<char>| versions.contains(v) <==> #[trigger] lists_version(
            listing,
            v,
        ) by {
            lemma_available_contains(listing, v);
        }
        if versions.len() > 0 {
            assert(versions.contains(versions[0]));
            assert(lists_version(listing, versions[0]));
        } else {
            assert forall|v: Seq<char>| !#[trigger] lists_version(listing, v) by {
                assert(!versions.contains(v));
            }
        }
        let req = wanted(existing_range(manifest, package));
        lemma_latest_admits(req, versions);
        if latest(req, versions) is None {
            assert forall|v: Seq<char>| #[trigger] lists_version(listing, v) implies !semver_admits(
                req,
                v,
            ) by {
                let i = choose|i: int| 0 <= i < versions.len() && versions[i] == v;
                assert(!semver_admits(req, versions[i]));
            }
        }
    }
}

/// `update` is for dependencies only: it succeeds for a git entry with one ref, which it refetches,
/// and for a range that an available version is in.
pub proof fn law_update_is_for_dependencies(
    manifest: Map<Seq<char>, DependencyText>,
    root: Seq<char>,
    listing: ListingText,
    package: Seq<char>,
)
    ensures
        !manifest.contains_key(package) ==> refreshed(manifest, root, listing, package) == Err::<
            RefreshText,
            ResolveFault,
        >(ResolveFault::NotADependency { package }),
        manifest.contains_key(package) && manifest[package] is Git ==> {
            let dep = manifest[package]->Git_0;
            &&& refreshed(manifest, root, listing, package) is Ok <==> (dep.tag is Some) != (
            dep.rev is Some)
            &&& refreshed(manifest, root, listing, package) matches Ok(to) ==> to
                == (RefreshText::Git {
                url: dep.git,
                git_ref: if dep.tag is Some {
                    dep.tag->0
                } else {
                    dep.rev->0
                },
            })
        },
        manifest.contains_key(package) && manifest[package] is Range && semver_req_fault(
            manifest[package]->Range_0,
        ) is None ==> {
            let range = manifest[package]->Range_0;
            &&& refreshed(manifest, root, listing, package) is Ok <==> exists|v: Seq<char>|
                #[trigger] lists_version(listing, v) && semver_admits(range, v)
            &&& refreshed(manifest, root, listing, package) matches Ok(to) ==> (to matches
                RefreshText::Version(v) && lists_version(listing, v) && semver_admits(range, v))
        },
{
    if manifest.contains_key(package) && manifest[package] is Range && semver_req_fault(
        manifest[package]->Range_0,
    ) is None {
        lemma_resolved_range(root, listing, package, Some(manifest[package]->Range_0));
    }
}

/// A git dependency pins a ref exactly if it has a tag or a rev and not both, and then that one;
/// else the fault names the repository, and says whether it has none or two.
pub proof fn law_git_dependency_has_one_ref(dep: GitText)
    ensures
        pinned_ref(dep) is Ok <==> (dep.tag is Some) != (dep.rev is Some),
        pinned_ref(dep) matches Ok(git_ref) ==> dep.tag == Some(git_ref) || dep.rev == Some(
            git_ref,
        ),
        dep.tag is Some && dep.rev is Some ==> pinned_ref(dep) == Err::<Seq<char>, ManifestFault>(
            ManifestFault::GitRefAmbiguous { git: dep.git },
        ),
        dep.tag is None && dep.rev is None ==> pinned_ref(dep) == Err::<Seq<char>, ManifestFault>(
            ManifestFault::GitRefMissing { git: dep.git },
        ),
{
}

/// The git dependency that `add --git` writes has the repository, the tag and the rev that were
/// given.
pub proof fn law_git_dependency_is_as_given(
    url: Seq<char>,
    tag: Option<Seq<char>>,
    rev: Option<Seq<char>>,
)
    ensures
        git_text(url, tag, rev).git == url,
        git_text(url, tag, rev).tag == tag,
        git_text(url, tag, rev).rev == rev,
{
}

/// A package is pinned exactly if its own manifest can be read and has its name, and its files can
/// be read; the pin has the checksum of these files. From the registry it has the version that was
/// asked for, from git the one that the manifest declares and the place that it came from.
pub proof fn law_pin_is_of_what_was_read(
    package: Seq<char>,
    version: Seq<char>,
    url: Seq<char>,
    git_ref: Seq<char>,
    contents: ContentsText,
)
    ensures
        ({
            let good = contents.manifest is Ok && contents.manifest->Ok_0.name == package
                && contents.files is Ok;
            &&& registry_pin(package, version, contents) is Ok <==> good
            &&& git_pin(package, url, git_ref, contents) is Ok <==> good
            &&& good ==> registry_pin(package, version, contents) == Ok::<Pin, ResolveFault>(
                Pin {
                    name: package,
                    version,
                    checksum: checksum_of(contents.files->Ok_0),
                    source: "registry"@,
                },
            )
            &&& good ==> git_pin(package, url, git_ref, contents) == Ok::<Pin, ResolveFault>(
                Pin {
                    name: package,
                    version: contents.manifest->Ok_0.version,
                    checksum: checksum_of(contents.files->Ok_0),
                    source: "git+"@ + url + "@"@ + git_ref,
                },
            )
        }),
        contents.manifest matches Ok(manifest) && manifest.name != package ==> registry_pin(
            package,
            version,
            contents,
        ) == Err::<Pin, ResolveFault>(
            ResolveFault::PackageNameMismatch {
                path: contents.manifest_path,
                expected: package,
                found: contents.manifest->Ok_0.name,
            },
        ),
{
}

/// Where a pin is restored from: a source `git+<repository>@<ref>` names a repository, `registry`
/// the folder of the version, which must spell one, and any other is a fault.
pub proof fn law_pin_source_says_where_from(pin: Pin)
    ensures
        match pin_source(pin) {
            Ok(InstallText::Git { url, git_ref }) => pin.source == "git+"@ + url + "@"@ + git_ref
                && !git_ref.contains('@'),
            Ok(InstallText::Registry { dir }) => pin.source == "registry"@ && semver_fault(
                pin.version,
            ) is None && dir == seq![pin.name, pin.version],
            Err(ResolveFault::InvalidVersion { value, reason }) => pin.source == "registry"@ && value
                == pin.version && semver_fault(value) == Some(reason),
            Err(ResolveFault::UnknownSource { name, version, pkg_source }) => name == pin.name
                && version == pin.version && pkg_source == pin.source && pin.source
                != "registry"@ && !(occurs_at(pin.source, "git+"@, 0) && pin.source.skip(
                4,
            ).contains('@')),
            Err(_) => false,
        },
{
    reveal_strlit("git+");
    reveal_strlit("@");
    let source = pin.source;
    let rest = source.skip(4);
    lemma_last_found(rest, '@', rest.len() as int);
    if let Some((url, git_ref)) = git_source_parts(source) {
        let i = find_last(rest, '@', rest.len() as int)->0;
        assert(source =~= source.subrange(0, 4) + rest);
        assert(rest =~= url + seq!['@'] + git_ref);
        assert(source =~= "git+"@ + url + "@"@ + git_ref);
        assert forall|j: int| 0 <= j < git_ref.len() implies git_ref[j] != '@' by {
            assert(git_ref[j] == rest[i + 1 + j]);
        }
    }
}

} // verus!
