//! Installing what is locked.
use vstd::prelude::*;

use crate::docs::installed_dir;
use crate::resolve::{checksum_fault, pin_source, registry_copy_fault, InstallText};
use crate::resolve::checksum::checksum_of;
use crate::resolve::error::{ResolveError, ResolveFault};
use crate::resolve::installing::{
    install_from, install_next, step_fits, InstallEventText, InstallStep, InstallStepText,
};
use crate::resolve::lockfile::Pin;
use crate::text::deep_result;

verus! {

/// Where `laplace install` stands after the first `n` of `events`, or the fault that ended it.
pub open spec fn install_after(
    root: Seq<char>,
    pins: Seq<Pin>,
    events: Seq<InstallEventText>,
    n: int,
) -> Result<InstallStepText, ResolveFault>
    decreases n,
{
    if n <= 0 {
        install_from(pins, 0)
    } else {
        match install_after(root, pins, events, n - 1) {
            Err(fault) => Err(fault),
            Ok(step) => install_next(root, pins, step, events[n - 1]),
        }
    }
}

/// A package that could not be had ends the walk, with the reason: that it could not be read, is not
/// what was pinned, or could not be stored. An event that is none of the step's changes nothing.
pub proof fn law_install_fails_for_a_reason(
    root: Seq<char>,
    pins: Seq<Pin>,
    step: InstallStepText,
    event: InstallEventText,
)
    ensures
        match (step, event) {
            (
                InstallStepText::ReadRegistry { index, .. },
                InstallEventText::RegistryRead(files),
            ) => match registry_copy_fault(root, pins[index], files) {
                Some(fault) => install_next(root, pins, step, event) == Err::<
                    InstallStepText,
                    ResolveFault,
                >(fault),
                None => install_next(root, pins, step, event) is Ok,
            },
            (
                InstallStepText::FetchGit { index, .. },
                InstallEventText::GitRead(files),
            ) => match checksum_fault(pins[index], files) {
                Some(fault) => install_next(root, pins, step, event) == Err::<
                    InstallStepText,
                    ResolveFault,
                >(fault),
                None => install_next(root, pins, step, event) is Ok,
            },
            (
                InstallStepText::Store { index, .. },
                InstallEventText::Stored(Some(fault)),
            ) => install_next(root, pins, step, event) == Err::<InstallStepText, ResolveFault>(
                fault,
            ),
            (InstallStepText::Store { index, .. }, InstallEventText::Stored(None)) => index + 1
                >= pins.len() ==> install_next(root, pins, step, event) == Ok::<
                InstallStepText,
                ResolveFault,
            >(InstallStepText::Done),
            _ => install_next(root, pins, step, event) == Ok::<InstallStepText, ResolveFault>(step),
        },
{
}

/// The walk goes to each pin where that comes from: a package of the registry is read from the
/// folder of its version there, and one from git is fetched from its repository, at its ref.
pub proof fn law_pins_are_restored_from_their_source(pins: Seq<Pin>, index: int)
    requires
        0 <= index < pins.len(),
    ensures
        match pin_source(pins[index]) {
            Err(fault) => install_from(pins, index) == Err::<InstallStepText, ResolveFault>(fault),
            Ok(InstallText::Registry { dir }) => install_from(pins, index) == Ok::<
                InstallStepText,
                ResolveFault,
            >(InstallStepText::ReadRegistry { index, dir }),
            Ok(InstallText::Git { url, git_ref }) => install_from(pins, index) == Ok::<
                InstallStepText,
                ResolveFault,
            >(InstallStepText::FetchGit { index, url, git_ref }),
        },
{
}

/// How many pins have been restored when `step` is to be done.
pub open spec fn restored(step: InstallStepText, pins: Seq<Pin>) -> int {
    match step {
        InstallStepText::ReadRegistry { index, .. } => index,
        InstallStepText::FetchGit { index, .. } => index,
        InstallStepText::Store { index, .. } => index,
        InstallStepText::Done => pins.len() as int,
    }
}

/// The event brings files that are those that were pinned.
pub open spec fn brings(event: InstallEventText, pin: Pin) -> bool {
    match event {
        InstallEventText::RegistryRead(Some(Ok(files))) => checksum_of(files) == pin.checksum,
        InstallEventText::GitRead(Ok(files)) => checksum_of(files) == pin.checksum,
        _ => false,
    }
}

/// Nothing reaches the cache unverified: files are stored, in the directory of the pin's name and
/// version, only right after they were read and found to be those that were pinned.
pub proof fn law_only_verified_files_are_stored(
    root: Seq<char>,
    pins: Seq<Pin>,
    step: InstallStepText,
    event: InstallEventText,
)
    requires
        step_fits(step, pins.len() as int),
        step !is Store,
        install_next(root, pins, step, event) matches Ok(next) && next is Store,
    ensures
        ({
            let next = install_next(root, pins, step, event)->Ok_0;
            let index = restored(step, pins);
            &&& 0 <= index < pins.len()
            &&& brings(event, pins[index])
            &&& next == (InstallStepText::Store {
                index,
                dest: installed_dir(pins[index]),
            })
        }),
{
}

/// Packages are restored in the order of the lock, one at a time: an event restores at most one
/// more, the next one, and only if its files were stored.
pub proof fn law_packages_are_restored_in_lock_order(
    root: Seq<char>,
    pins: Seq<Pin>,
    step: InstallStepText,
    event: InstallEventText,
)
    requires
        step_fits(step, pins.len() as int),
        install_next(root, pins, step, event) is Ok,
    ensures
        ({
            let next = install_next(root, pins, step, event)->Ok_0;
            &&& step_fits(next, pins.len() as int)
            &&& restored(next, pins) == restored(step, pins) || (restored(next, pins) == restored(
                step,
                pins,
            ) + 1 && step is Store && event == InstallEventText::Stored(None))
        }),
{
}

/// The first failure stops the walk.
pub proof fn law_first_failure_stops_install(
    root: Seq<char>,
    pins: Seq<Pin>,
    events: Seq<InstallEventText>,
    n: int,
    later: int,
)
    requires
        0 <= n <= later,
        install_after(root, pins, events, n) is Err,
    ensures
        install_after(root, pins, events, later) == install_after(root, pins, events, n),
    decreases later - n,
{
    if n < later {
        law_first_failure_stops_install(root, pins, events, n, later - 1);
    }
}

/// Among the first `n` events are one that brings the files of a pin and, behind it, one that
/// they were stored.
pub open spec fn is_restored(events: Seq<InstallEventText>, n: int, pin: Pin) -> bool {
    exists|i: int, j: int|
        0 <= i < j < n && brings(#[trigger] events[i], pin) && #[trigger] events[j]
            == InstallEventText::Stored(None)
}

/// What was stored by then has been verified and stored, and what is to be stored next has been
/// verified.
proof fn lemma_restored_so_far(
    root: Seq<char>,
    pins: Seq<Pin>,
    events: Seq<InstallEventText>,
    n: int,
)
    requires
        0 <= n <= events.len(),
        install_after(root, pins, events, n) is Ok,
    ensures
        ({
            let step = install_after(root, pins, events, n)->Ok_0;
            &&& step_fits(step, pins.len() as int)
            &&& forall|k: int|
                0 <= k < restored(step, pins) ==> is_restored(events, n, #[trigger] pins[k])
            &&& step is Store ==> exists|i: int|
                0 <= i < n && brings(#[trigger] events[i], pins[restored(step, pins)])
        }),
    decreases n,
{
    if n > 0 {
        lemma_restored_so_far(root, pins, events, n - 1);
        let step = install_after(root, pins, events, n - 1)->Ok_0;
        let event = events[n - 1];
        let next = install_after(root, pins, events, n)->Ok_0;
        law_packages_are_restored_in_lock_order(root, pins, step, event);
        assert forall|k: int| 0 <= k < restored(next, pins) implies is_restored(
            events,
            n,
            #[trigger] pins[k],
        ) by {
            if k < restored(step, pins) {
                assert(is_restored(events, n - 1, pins[k]));
                let (i, j) = choose|i: int, j: int|
                    0 <= i < j < n - 1 && brings(#[trigger] events[i], pins[k])
                        && #[trigger] events[j] == InstallEventText::Stored(None);
                assert(brings(events[i], pins[k]) && events[j] == InstallEventText::Stored(None));
            } else {
                let i = choose|i: int|
                    0 <= i < n - 1 && brings(#[trigger] events[i], pins[restored(step, pins)]);
                assert(brings(events[i], pins[k]) && events[n - 1] == InstallEventText::Stored(
                    None,
                ));
            }
        }
        if next is Store {
            if step is Store {
                let i = choose|i: int|
                    0 <= i < n - 1 && brings(#[trigger] events[i], pins[restored(step, pins)]);
                assert(restored(next, pins) == restored(step, pins));
                assert(brings(events[i], pins[restored(next, pins)]));
            } else {
                law_only_verified_files_are_stored(root, pins, step, event);
                assert(brings(events[n - 1], pins[restored(next, pins)]));
            }
        }
    }
}

/// Once `laplace install` is done, every package of the lock has been restored: its files were
/// read, hashed to its locked checksum, and were stored.
pub proof fn law_install_restores_every_package(
    root: Seq<char>,
    pins: Seq<Pin>,
    events: Seq<InstallEventText>,
    k: int,
)
    requires
        install_after(root, pins, events, events.len() as int) == Ok::<
            InstallStepText,
            ResolveFault,
        >(InstallStepText::Done),
        0 <= k < pins.len(),
    ensures
        is_restored(events, events.len() as int, pins[k]),
{
    lemma_restored_so_far(root, pins, events, events.len() as int);
}

/// `laplace install` goes by the lock, the registry and what it reads alone: the same lock and the
/// same event always lead on to the same step, or to the same failure.
pub proof fn law_install_goes_by_the_lock(
    root: Seq<char>,
    pins: Seq<Pin>,
    step: InstallStepText,
    event: InstallEventText,
    first: Result<InstallStep, ResolveError>,
    second: Result<InstallStep, ResolveError>,
)
    requires
        deep_result(first) == install_next(root, pins, step, event),
        deep_result(second) == install_next(root, pins, step, event),
    ensures
        first is Ok <==> second is Ok,
        deep_result(first) == deep_result(second),
{
}

/// The events of a walk in which every pin is found as it was locked: for the pin at `k` its files
/// are brought, from where its source says, and then stored.
pub open spec fn all_goes_well(pins: Seq<Pin>, events: Seq<InstallEventText>) -> bool {
    &&& events.len() == 2 * pins.len()
    &&& forall|k: int|
        0 <= k < pins.len() ==> (match pin_source(#[trigger] pins[k]) {
            Ok(InstallText::Registry { .. }) => events[2 * k] is RegistryRead,
            Ok(InstallText::Git { .. }) => events[2 * k] is GitRead,
            Err(_) => false,
        }) && brings(events[2 * k], pins[k]) && events[2 * k + 1] == InstallEventText::Stored(None)
}

/// Where every pin is found as it was locked, `laplace install` succeeds.
pub proof fn law_intact_lock_installs(
    root: Seq<char>,
    pins: Seq<Pin>,
    events: Seq<InstallEventText>,
)
    requires
        all_goes_well(pins, events),
    ensures
        install_after(root, pins, events, events.len() as int) == Ok::<
            InstallStepText,
            ResolveFault,
        >(InstallStepText::Done),
{
    lemma_goes_well_so_far(root, pins, events, pins.len() as int);
}

/// After two events for each of the first pins, the next one is begun.
proof fn lemma_goes_well_so_far(
    root: Seq<char>,
    pins: Seq<Pin>,
    events: Seq<InstallEventText>,
    k: int,
)
    requires
        all_goes_well(pins, events),
        0 <= k <= pins.len(),
    ensures
        install_after(root, pins, events, 2 * k) == install_from(pins, k),
    decreases k,
{
    if k > 0 {
        let j = k - 1;
        lemma_goes_well_so_far(root, pins, events, j);
        assert(pin_source(pins[j]) is Ok);
        let read = install_after(root, pins, events, 2 * j + 1);
        assert(read == Ok::<InstallStepText, ResolveFault>(
            InstallStepText::Store { index: j, dest: installed_dir(pins[j]) },
        ));
        assert(events[2 * j + 1] == InstallEventText::Stored(None));
    }
}

} // verus!
