//! Resolving, locking and installing.
use vstd::prelude::*;

use crate::manifest::{pinned_ref, DependencyText, GitText};
use crate::order::{
    lemma_ranked_ascends, lemma_ranked_is_stable, lemma_ranked_is_unique, lemma_ranked_permutes,
    lemma_text_less_total, ranked, same_rank, text_at_most, ties,
};
use crate::resolve::{
    available, caret_range, checksum_fault, existing_range, git_pin, latest_addition, pin_source,
    pinned_addition, refreshed, registry_copy_fault, registry_pin, ContentsText, InstallText,
    ListingText, REGISTRY_SOURCE, RefreshText,
};
use crate::resolve::checksum::{checksum_of, lemma_path_less_total, FileContents, PackageFile};
use crate::resolve::error::ResolveFault;
use crate::resolve::git::{git_source_parts, git_source_text, next_fetch_step, FetchStep};
use crate::resolve::lockfile::{
    find_pin, pins_package, recorded, without_package, LockedPackage, Pin,
};
use crate::resolve::version::semver_fault;
use crate::text::{
    find_last, first_from, lemma_first_agrees, lemma_first_extends, lemma_first_found,
    lemma_first_shifts, lemma_first_skip,
};

verus! {

/// A git source reads back as the repository and the ref that were written, as long as the
/// ref has no `@` in it. The repository may have some.
pub proof fn law_git_source_reads_back(url: Seq<char>, git_ref: Seq<char>)
    requires
        !git_ref.contains('@'),
    ensures
        git_source_parts(git_source_text(url, git_ref)) == Some((url, git_ref)),
{
    reveal_strlit("git+");
    reveal_strlit("@");
    let source = git_source_text(url, git_ref);
    let rest = url + "@"@ + git_ref;
    assert(source.subrange(0, 4) =~= "git+"@);
    assert(source.skip(4) =~= rest);
    lemma_find_last(rest, '@', rest.len() as int, url.len() as int);
    assert(rest.take(url.len() as int) =~= url);
    assert(rest.skip(url.len() as int + 1) =~= git_ref);
}

/// The last position of a character is the one behind which it does not occur.
proof fn lemma_find_last(s: Seq<char>, c: char, n: int, i: int)
    requires
        0 <= i < n <= s.len(),
        s[i] == c,
        forall|j: int| i < j < n ==> s[j] != c,
    ensures
        find_last(s, c, n) == Some(i),
    decreases n,
{
    if i < n - 1 {
        lemma_find_last(s, c, n - 1, i);
    }
}

/// The source of a registry package is no git source.
proof fn lemma_registry_is_no_git_source()
    ensures
        git_source_parts(REGISTRY_SOURCE@) is None,
{
    reveal_strlit("git+");
    reveal_strlit("registry");
    assert("registry"@.subrange(0, 4)[0] == 'r');
    assert("git+"@[0] == 'g');
}

/// What was locked from the registry can be installed from it: `install` looks in the very
/// folder that was locked, and accepts what was hashed then as long as it is still there.
pub proof fn law_locked_from_registry_installs(
    root: Seq<char>,
    package: Seq<char>,
    version: Seq<char>,
    contents: ContentsText,
)
    requires
        registry_pin(package, version, contents) is Ok,
        semver_fault(version) is None,
    ensures
        ({
            let pin = registry_pin(package, version, contents)->Ok_0;
            &&& pin.name == package && pin.version == version
            &&& pin_source(pin) == Ok::<InstallText, ResolveFault>(
                InstallText::Registry { dir: seq![package, version] },
            )
            &&& registry_copy_fault(root, pin, Some(contents.files)) is None
        }),
{
    lemma_registry_is_no_git_source();
}

/// What was locked from a git repository can be installed from it: `install` fetches the very
/// ref that was locked, and accepts what was hashed then as long as it is still there.
pub proof fn law_locked_from_git_installs(
    root: Seq<char>,
    package: Seq<char>,
    url: Seq<char>,
    git_ref: Seq<char>,
    contents: ContentsText,
)
    requires
        git_pin(package, url, git_ref, contents) is Ok,
        !git_ref.contains('@'),
    ensures
        ({
            let pin = git_pin(package, url, git_ref, contents)->Ok_0;
            &&& pin.name == package
            &&& pin_source(pin) == Ok::<InstallText, ResolveFault>(
                InstallText::Git { url, git_ref },
            )
            &&& checksum_fault(pin, contents.files) is None
        }),
{
    law_git_source_reads_back(url, git_ref);
}

/// How many steps of a fetch may still follow.
pub open spec fn steps_left(step: FetchStep) -> int {
    match step {
        FetchStep::ShallowClone => 5,
        FetchStep::ClearDirectory => 4,
        FetchStep::FullClone => 3,
        FetchStep::Checkout => 2,
        FetchStep::StripMetadata => 1,
        FetchStep::Fetched => 0,
    }
}

/// A fetch comes to an end: no step is taken twice.
pub proof fn law_fetch_comes_to_an_end(step: FetchStep, success: bool)
    requires
        step != FetchStep::Fetched,
    ensures
        next_fetch_step(step, success) matches Some(next) ==> 0 <= steps_left(next) < steps_left(
            step,
        ),
{
}

/// A package is fetched only once its `.git` directory has been removed: only the tracked
/// files are the package.
pub proof fn law_fetched_package_is_stripped(step: FetchStep, success: bool)
    requires
        step != FetchStep::Fetched,
        next_fetch_step(step, success) == Some(FetchStep::Fetched),
    ensures
        step == FetchStep::StripMetadata,
        success,
{
}

/// Files with another checksum than the locked ones are never accepted.
pub proof fn law_changed_contents_are_refused(root: Seq<char>, pin: Pin, files: Seq<FileContents>)
    requires
        checksum_of(files) != pin.checksum,
    ensures
        checksum_fault(pin, Ok(files)) is Some,
        registry_copy_fault(root, pin, Some(Ok(files))) is Some,
{
}

/// The checksum does not depend on the order in which a directory's files are found.
pub proof fn law_checksum_ignores_walk_order(a: Seq<FileContents>, b: Seq<FileContents>)
    requires
        a.to_multiset() == b.to_multiset(),
        forall|i: int, j: int|
            0 <= i < j < a.len() ==> (#[trigger] a[i]).path != (#[trigger] a[j]).path,
    ensures
        checksum_of(a) == checksum_of(b),
{
    assert forall|i: int, j: int| 0 <= i < j < a.len() implies !same_rank::<PackageFile>(
        #[trigger] a[i],
        #[trigger] a[j],
    ) by {
        lemma_path_less_total(a[i].path, a[j].path);
    }
    lemma_ranked_is_unique::<PackageFile>(a, b);
}

// The lock ----------------------------------------------------------------

/// Pins have the same rank exactly if they are of the same package.
proof fn lemma_pins_tie(a: Pin, b: Pin)
    ensures
        same_rank::<LockedPackage>(a, b) <==> a.name == b.name,
{
    lemma_text_less_total(a.name, b.name);
    lemma_text_less_total(a.name, a.name);
}

/// The first pin of a package is the first of those of its rank.
proof fn lemma_find_pin_by_ties(pins: Seq<Pin>, v: Pin)
    ensures
        find_pin(pins, v.name) == (if ties::<LockedPackage>(pins, v).len() > 0 {
            Some(ties::<LockedPackage>(pins, v)[0])
        } else {
            None::<Pin>
        }),
    decreases pins.len(),
{
    if pins.len() > 0 {
        let rest = pins.drop_first();
        let p = pins_package(pins, v.name);
        let q = pins_package(rest, v.name);
        lemma_pins_tie(pins[0], v);
        lemma_find_pin_by_ties(rest, v);
        if pins[0].name == v.name {
            assert(p(0));
        } else {
            assert(!p(0));
            lemma_first_shifts(q, p, 0, rest.len() as int);
            lemma_first_found(q, 0, rest.len() as int);
        }
    }
}

/// Sorting the lock for writing changes nothing for those who look a package up in it.
pub proof fn law_sorted_lock_answers_alike(pins: Seq<Pin>, name: Seq<char>)
    ensures
        find_pin(ranked::<LockedPackage>(pins), name) == find_pin(pins, name),
{
    let v = Pin { name, version: seq![], checksum: seq![], source: seq![] };
    lemma_find_pin_by_ties(pins, v);
    lemma_find_pin_by_ties(ranked::<LockedPackage>(pins), v);
    lemma_ranked_is_stable::<LockedPackage>(pins, v);
}

/// The lock is written in the order of its packages' names, and holds the same pins.
pub proof fn law_written_lock_is_sorted(pins: Seq<Pin>)
    ensures
        ranked::<LockedPackage>(pins).to_multiset() == pins.to_multiset(),
        forall|i: int, j: int|
            0 <= i < j < pins.len() ==> text_at_most(
                (#[trigger] ranked::<LockedPackage>(pins)[i]).name,
                (#[trigger] ranked::<LockedPackage>(pins)[j]).name,
            ),
{
    lemma_ranked_permutes::<LockedPackage>(pins);
    lemma_ranked_ascends::<LockedPackage>(pins);
}

/// Without a package's pins there is no pin of it, and those of the others are unchanged.
proof fn lemma_without_package(pins: Seq<Pin>, name: Seq<char>, other: Seq<char>)
    ensures
        forall|i: int|
            0 <= i < without_package(pins, name).len() ==> (#[trigger] without_package(
                pins,
                name,
            )[i]).name != name,
        other != name ==> find_pin(without_package(pins, name), other) == find_pin(pins, other),
    decreases pins.len(),
{
    if pins.len() > 0 {
        let front = pins.drop_last();
        lemma_without_package(front, name, other);
        if other != name {
            lemma_find_pin_last(pins, other);
            if pins.last().name != name {
                let kept = without_package(pins, name);
                assert(kept.drop_last() =~= without_package(front, name));
                lemma_find_pin_last(kept, other);
            }
        }
    }
}

/// The first pin of a package is found before the last pin, or is it.
proof fn lemma_find_pin_last(pins: Seq<Pin>, name: Seq<char>)
    requires
        pins.len() > 0,
    ensures
        find_pin(pins, name) == match find_pin(pins.drop_last(), name) {
            Some(pin) => Some(pin),
            None => if pins.last().name == name {
                Some(pins.last())
            } else {
                None
            },
        },
{
    let front = pins.drop_last();
    let n = front.len() as int;
    let p = pins_package(pins, name);
    let q = pins_package(front, name);
    assert forall|i: int| 0 <= i < n implies #[trigger] q(i) == p(i) by {
    }
    lemma_first_agrees(q, p, 0, n);
    lemma_first_found(q, 0, n);
    lemma_first_found(p, 0, n);
    match first_from(q, 0, n) {
        Some(i) => {
            lemma_first_extends(p, 0, n, n + 1);
        },
        None => {
            lemma_first_skip(p, 0, n, n + 1);
            assert(p(n) == (pins.last().name == name));
            assert(first_from(p, n + 1, n + 1) is None);
        },
    }
}

/// What `add` and `update` record is what is read back: the written lock has one pin of the
/// package, the new one, and answers for every other package as before.
pub proof fn law_recorded_pin_is_found(pins: Seq<Pin>, pin: Pin, other: Seq<char>)
    ensures
        ({
            let written = ranked::<LockedPackage>(recorded(pins, pin));
            &&& find_pin(written, pin.name) == Some(pin)
            &&& other != pin.name ==> find_pin(written, other) == find_pin(pins, other)
        }),
        forall|i: int, j: int|
            0 <= i < j < recorded(pins, pin).len() ==> !((#[trigger] recorded(pins, pin)[i]).name
                == pin.name && (#[trigger] recorded(pins, pin)[j]).name == pin.name),
{
    let all = recorded(pins, pin);
    let kept = without_package(pins, pin.name);
    assert(all.drop_last() =~= kept);
    lemma_without_package(pins, pin.name, other);
    law_sorted_lock_answers_alike(all, pin.name);
    law_sorted_lock_answers_alike(all, other);
    lemma_find_pin_last(all, pin.name);
    lemma_find_pin_last(all, other);
    lemma_first_found(pins_package(kept, pin.name), 0, kept.len() as int);
}

// Adding and updating -----------------------------------------------------

/// `add <pkg>@<version>` resolves to exactly the version asked for, which the registry has,
/// and writes `^<version>`.
pub proof fn law_add_pins_exactly(
    manifest: Map<Seq<char>, DependencyText>,
    root: Seq<char>,
    listing: ListingText,
    package: Seq<char>,
    version: Seq<char>,
)
    requires
        pinned_addition(manifest, root, listing, package, version) is Ok,
    ensures
        ({
            let added = pinned_addition(manifest, root, listing, package, version)->Ok_0;
            &&& added.version == version
            &&& available(listing)->Ok_0.contains(version)
            &&& added.manifest[package] == DependencyText::Range(caret_range(version))
        }),
{
}

/// `add` leaves the entries of all other packages as they are.
pub proof fn law_add_keeps_other_dependencies(
    manifest: Map<Seq<char>, DependencyText>,
    root: Seq<char>,
    listing: ListingText,
    package: Seq<char>,
    pinned: Option<Seq<char>>,
    other: Seq<char>,
)
    requires
        other != package,
        (match pinned {
            Some(version) => pinned_addition(manifest, root, listing, package, version),
            None => latest_addition(manifest, root, listing, package),
        }) is Ok,
    ensures
        ({
            let added = (match pinned {
                Some(version) => pinned_addition(manifest, root, listing, package, version),
                None => latest_addition(manifest, root, listing, package),
            })->Ok_0;
            &&& added.manifest.contains_key(other) == manifest.contains_key(other)
            &&& manifest.contains_key(other) ==> added.manifest[other] == manifest[other]
        }),
{
}

/// `add <pkg>` does not touch a range that the manifest already has.
pub proof fn law_add_keeps_existing_range(
    manifest: Map<Seq<char>, DependencyText>,
    root: Seq<char>,
    listing: ListingText,
    package: Seq<char>,
)
    requires
        manifest.contains_key(package),
        latest_addition(manifest, root, listing, package) is Ok,
    ensures
        latest_addition(manifest, root, listing, package)->Ok_0.manifest == manifest,
{
}

/// Whatever `add` adds from the registry, `update` can refresh from the registry: the
/// manifest then has a range for the package.
pub proof fn law_added_package_has_a_range(
    manifest: Map<Seq<char>, DependencyText>,
    root: Seq<char>,
    listing: ListingText,
    package: Seq<char>,
    pinned: Option<Seq<char>>,
)
    requires
        (match pinned {
            Some(version) => pinned_addition(manifest, root, listing, package, version),
            None => latest_addition(manifest, root, listing, package),
        }) is Ok,
    ensures
        existing_range(
            (match pinned {
                Some(version) => pinned_addition(manifest, root, listing, package, version),
                None => latest_addition(manifest, root, listing, package),
            })->Ok_0.manifest,
            package,
        ) is Some,
{
}

/// For a package with a range, `update` resolves as `add` without a version does.
pub proof fn law_update_resolves_as_add(
    manifest: Map<Seq<char>, DependencyText>,
    root: Seq<char>,
    listing: ListingText,
    package: Seq<char>,
)
    requires
        existing_range(manifest, package) is Some,
    ensures
        refreshed(manifest, root, listing, package) == (match latest_addition(
            manifest,
            root,
            listing,
            package,
        ) {
            Ok(added) => Ok::<RefreshText, ResolveFault>(RefreshText::Version(added.version)),
            Err(fault) => Err::<RefreshText, ResolveFault>(fault),
        }),
{
}

/// What `add --git` records, `update` refetches: the repository, and the tag or the rev that was
/// given. The entries of all other packages stay as they are.
pub proof fn law_recorded_git_package_is_refetched(
    manifest: Map<Seq<char>, DependencyText>,
    root: Seq<char>,
    listing: ListingText,
    package: Seq<char>,
    dependency: GitText,
    other: Seq<char>,
)
    requires
        pinned_ref(dependency) is Ok,
    ensures
        ({
            let written = manifest.insert(package, DependencyText::Git(dependency));
            &&& refreshed(written, root, listing, package) == Ok::<RefreshText, ResolveFault>(
                RefreshText::Git { url: dependency.git, git_ref: pinned_ref(dependency)->Ok_0 },
            )
            &&& other != package ==> written.contains_key(other) == manifest.contains_key(other)
            &&& other != package && manifest.contains_key(other) ==> written[other]
                == manifest[other]
        }),
{
}

} // verus!
